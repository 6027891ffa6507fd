use vstd::prelude::*;
use crate::cursor::{
    CharClass, Cursor, ErrorKind, ParseError, err_at, expect_s, forward, onward, remaining,
    scan_end, skip_ws,
};

verus! {

// ---------------------------------------------------------------------------
// The stylesheet data model and its mathematical view
// ---------------------------------------------------------------------------
/// A parsed stylesheet: its rules, in source order.
#[derive(Debug)]
pub struct StyleSheet {
    pub rules: Vec<Rule>,
}

/// One rule: its selectors, sorted most-specific first, and its
/// declarations, in source order.
#[derive(Debug)]
pub struct Rule {
    pub selectors: Vec<Selector>,
    pub declarations: Vec<Declaration>,
}

/// A selector.  Today only simple selectors exist; the enum leaves room for
/// further kinds.
#[derive(Debug)]
pub enum Selector {
    Simple(SimpleSelector),
}

/// A simple selector: an optional tag name, an optional id, and class
/// names.  Every present part must hold of an element for a match; absent
/// parts are wildcards.
#[derive(Debug)]
pub struct SimpleSelector {
    pub tag_name: Option<String>,
    pub id: Option<String>,
    pub class: Vec<String>,
}

/// One declaration: a property name and its value.
#[derive(Debug)]
pub struct Declaration {
    pub name: String,
    pub value: Value,
}

/// A declaration value: a bare keyword, a length with its unit, or a color.
/// A length keeps its numeric literal exactly as written (and checked to be
/// a well-formed number: at most one decimal point), so the verified core
/// carries no floating point; a consumer converts where it needs to.
#[derive(Debug)]
pub enum Value {
    Keyword(String),
    Length(String, Unit),
    ColorValue(Color),
}

/// A length unit.
#[derive(Clone, Copy, Debug, PartialEq, Eq, Structural)]
pub enum Unit {
    Px,
    Percent,
}

/// An RGBA color, one byte a channel.
#[derive(Clone, Copy, Debug, PartialEq, Eq, Structural)]
pub struct Color {
    pub r: u8,
    pub g: u8,
    pub b: u8,
    pub a: u8,
}

/// A selector's rank: id count, class count, tag count, compared
/// lexicographically; a higher rank wins the cascade.
pub type Specificity = (usize, usize, usize);

/// The view of a value.
pub enum ValueView {
    Keyword(Seq<char>),
    Length(Seq<char>, Unit),
    ColorValue(Color),
}

/// The view of a declaration.
pub struct DeclView {
    pub name: Seq<char>,
    pub value: ValueView,
}

/// The view of a simple selector.
pub struct SimpleSelectorView {
    pub tag_name: Option<Seq<char>>,
    pub id: Option<Seq<char>>,
    pub class: Seq<Seq<char>>,
}

/// The view of a selector.
pub enum SelectorView {
    Simple(SimpleSelectorView),
}

/// The view of a rule.
pub struct RuleView {
    pub selectors: Seq<SelectorView>,
    pub declarations: Seq<DeclView>,
}

/// The view of a stylesheet.
pub struct StyleSheetView {
    pub rules: Seq<RuleView>,
}

impl View for Value {
    type V = ValueView;

    open spec fn view(&self) -> ValueView {
        match *self {
            Value::Keyword(s) => ValueView::Keyword(s@),
            Value::Length(n, u) => ValueView::Length(n@, u),
            Value::ColorValue(c) => ValueView::ColorValue(c),
        }
    }
}

impl Clone for Value {
    /// A clone equals the value cloned.
    fn clone(&self) -> (r: Self)
        ensures
            r == *self,
    {
        match self {
            Value::Keyword(s) => Value::Keyword(s.clone()),
            Value::Length(n, u) => Value::Length(n.clone(), *u),
            Value::ColorValue(c) => Value::ColorValue(*c),
        }
    }
}

impl View for Declaration {
    type V = DeclView;

    open spec fn view(&self) -> DeclView {
        DeclView { name: self.name@, value: self.value@ }
    }
}

impl Clone for Declaration {
    /// A clone equals the declaration cloned.
    fn clone(&self) -> (r: Self)
        ensures
            r == *self,
    {
        Declaration { name: self.name.clone(), value: self.value.clone() }
    }
}

/// The views of a sequence of strings.
pub open spec fn strings_view(v: Seq<String>) -> Seq<Seq<char>> {
    Seq::new(v.len(), |i: int| v[i]@)
}

impl View for SimpleSelector {
    type V = SimpleSelectorView;

    open spec fn view(&self) -> SimpleSelectorView {
        SimpleSelectorView {
            tag_name: match self.tag_name {
                Some(s) => Some(s@),
                None => None,
            },
            id: match self.id {
                Some(s) => Some(s@),
                None => None,
            },
            class: strings_view(self.class@),
        }
    }
}

impl View for Selector {
    type V = SelectorView;

    open spec fn view(&self) -> SelectorView {
        match *self {
            Selector::Simple(s) => SelectorView::Simple(s@),
        }
    }
}

/// The views of a sequence of selectors.
pub open spec fn sels_view(v: Seq<Selector>) -> Seq<SelectorView> {
    Seq::new(v.len(), |i: int| v[i]@)
}

/// The views of a sequence of declarations.
pub open spec fn decls_view(v: Seq<Declaration>) -> Seq<DeclView> {
    Seq::new(v.len(), |i: int| v[i]@)
}

impl View for Rule {
    type V = RuleView;

    open spec fn view(&self) -> RuleView {
        RuleView { selectors: sels_view(self.selectors@), declarations: decls_view(self.declarations@) }
    }
}

impl View for StyleSheet {
    type V = StyleSheetView;

    open spec fn view(&self) -> StyleSheetView {
        StyleSheetView { rules: Seq::new(self.rules@.len(), |i: int| self.rules@[i]@) }
    }
}

// ---------------------------------------------------------------------------
// Specificity and the selector order
// ---------------------------------------------------------------------------
/// The specificity of a selector: how many id, class and tag conditions it
/// holds.  The id and tag parts are single, so each counts 0 or 1.
pub open spec fn sel_specificity(s: SelectorView) -> (int, int, int) {
    match s {
        SelectorView::Simple(ss) => (
            if ss.id is Some {
                1int
            } else {
                0int
            },
            ss.class.len() as int,
            if ss.tag_name is Some {
                1int
            } else {
                0int
            },
        ),
    }
}

/// Lexicographic order on specificities.
pub open spec fn specificity_le(a: (int, int, int), b: (int, int, int)) -> bool {
    a.0 < b.0 || (a.0 == b.0 && (a.1 < b.1 || (a.1 == b.1 && a.2 <= b.2)))
}

/// Runtime lexicographic comparison of specificities.
pub fn specificity_le_exec(a: Specificity, b: Specificity) -> (r: bool)
    ensures
        r == specificity_le((a.0 as int, a.1 as int, a.2 as int), (b.0 as int, b.1 as int, b.2 as int)),
{
    a.0 < b.0 || (a.0 == b.0 && (a.1 < b.1 || (a.1 == b.1 && a.2 <= b.2)))
}

impl Selector {
    /// Selectors rank by their id, class and tag counts, in that order of
    /// weight.
    pub fn specificity(&self) -> (r: Specificity)
        ensures
            (r.0 as int, r.1 as int, r.2 as int) == sel_specificity(self@),
    {
        match self {
            Selector::Simple(s) => (
                if s.id.is_some() {
                    1
                } else {
                    0
                },
                s.class.len(),
                if s.tag_name.is_some() {
                    1
                } else {
                    0
                },
            ),
        }
    }
}

/// `x` placed into the descending-sorted `s`: after every element at least
/// as specific, before the first strictly less specific one, so that an
/// earlier equal element stays first (a stable order).
pub open spec fn insert_desc(x: SelectorView, s: Seq<SelectorView>) -> Seq<SelectorView>
    decreases s.len(),
{
    if s.len() > 0 && specificity_le(sel_specificity(x), sel_specificity(s[0])) {
        seq![s[0]] + insert_desc(x, s.drop_first())
    } else {
        seq![x] + s
    }
}

/// `s` sorted descending by specificity, stably: elements of equal
/// specificity keep their source order.
pub open spec fn sort_desc(s: Seq<SelectorView>) -> Seq<SelectorView>
    decreases s.len(),
{
    if s.len() == 0 {
        Seq::empty()
    } else {
        insert_desc(s.last(), sort_desc(s.drop_last()))
    }
}

pub proof fn lemma_insert_desc_at(x: SelectorView, s: Seq<SelectorView>, j: int)
    requires
        0 <= j <= s.len(),
        forall|i: int| 0 <= i < j ==> specificity_le(sel_specificity(x), sel_specificity(s[i])),
        j == s.len() || !specificity_le(sel_specificity(x), sel_specificity(s[j])),
    ensures
        insert_desc(x, s) == s.take(j) + seq![x] + s.skip(j),
    decreases j,
{
    if j == 0 {
        assert(insert_desc(x, s) =~= s.take(0) + seq![x] + s.skip(0));
    } else {
        lemma_insert_desc_at(x, s.drop_first(), j - 1);
        assert(seq![s[0]] + (s.drop_first().take(j - 1) + seq![x] + s.drop_first().skip(j - 1))
            =~= s.take(j) + seq![x] + s.skip(j));
    }
}

// ---------------------------------------------------------------------------
// The stylesheet grammar, as total functions over the input characters
// ---------------------------------------------------------------------------
/// How many times `c` occurs in `s`.
pub open spec fn count_char(s: Seq<char>, c: char) -> int
    decreases s.len(),
{
    if s.len() == 0 {
        0
    } else {
        count_char(s.drop_last(), c) + if s.last() == c {
            1int
        } else {
            0int
        }
    }
}

/// A numeric literal of digits and dots is a well-formed number when it
/// holds at most one dot.
pub open spec fn valid_number(s: Seq<char>) -> bool {
    count_char(s, '.') <= 1
}

/// Parses the selector list of one rule starting at `p`, appending the
/// selectors to `acc` in source order: selectors separated by `,` and
/// optional whitespace, ended by `{`, which is consumed.
pub open spec fn collect_selectors_s(t: Seq<char>, p: int, acc: Seq<SelectorView>) -> Result<
    (Seq<SelectorView>, int),
    ParseError,
>
    decreases remaining(t, p), 0int,
{
    let (ss, q) = parse_simple_selector_s(
        t,
        p,
        SimpleSelectorView { tag_name: None, id: None, class: Seq::empty() },
    );
    let p2 = skip_ws(t, forward(p, q));
    if p2 >= t.len() {
        Err(err_at(ErrorKind::UnexpectedEof, p2))
    } else if t[p2] == ',' {
        collect_selectors_s(t, onward(p, skip_ws(t, p2 + 1)), acc.push(SelectorView::Simple(ss)))
    } else if t[p2] == '{' {
        Ok((acc.push(SelectorView::Simple(ss)), p2 + 1))
    } else {
        Err(err_at(ErrorKind::UnexpectedCharacter, p2))
    }
}

/// Parses one simple selector at `p`, folding its parts into `acc`: any
/// mixture of `#id` and `.class` fragments, `*`, and one tag name; a later
/// `#id` or tag name overrides an earlier one.  Never fails; stops at the
/// first character that opens no fragment.
pub open spec fn parse_simple_selector_s(t: Seq<char>, p: int, acc: SimpleSelectorView) -> (
    SimpleSelectorView,
    int,
)
    decreases remaining(t, p),
{
    if p >= t.len() || p < 0 {
        (acc, p)
    } else if t[p] == '#' {
        let e = forward(p + 1, scan_end(t, p + 1, CharClass::Identifier));
        parse_simple_selector_s(
            t,
            onward(p, e),
            SimpleSelectorView { id: Some(t.subrange(p + 1, e)), ..acc },
        )
    } else if t[p] == '.' {
        let e = forward(p + 1, scan_end(t, p + 1, CharClass::Identifier));
        parse_simple_selector_s(
            t,
            onward(p, e),
            SimpleSelectorView { class: acc.class.push(t.subrange(p + 1, e)), ..acc },
        )
    } else if t[p] == '*' {
        parse_simple_selector_s(t, p + 1, acc)
    } else if char_in_class_sel(t[p]) {
        let e = onward(p, scan_end(t, p, CharClass::Identifier));
        parse_simple_selector_s(
            t,
            e,
            SimpleSelectorView { tag_name: Some(t.subrange(p, e)), ..acc },
        )
    } else {
        (acc, p)
    }
}

/// Whether `c` can start or continue an identifier.
pub open spec fn char_in_class_sel(c: char) -> bool {
    crate::cursor::char_in_class(CharClass::Identifier, c)
}

/// Parses one rule at `p`: a selector list, then a declaration list.  The
/// rule's selectors are sorted most-specific first.
pub open spec fn parse_rule_s(t: Seq<char>, p: int) -> Result<(RuleView, int), ParseError>
    decreases remaining(t, p), 1int,
{
    match collect_selectors_s(t, p, Seq::empty()) {
        Err(e) => Err(e),
        Ok((sels, ps)) => match parse_declarations_s(t, forward(p, ps), Seq::empty()) {
            Err(e) => Err(e),
            Ok((ds, pd)) => Ok(
                (RuleView { selectors: sort_desc(sels), declarations: ds }, pd),
            ),
        },
    }
}

/// Parses rules separated by whitespace until the end of the input,
/// appending them to `acc`.
pub open spec fn parse_rules_s(t: Seq<char>, p: int, acc: Seq<RuleView>) -> Result<
    (Seq<RuleView>, int),
    ParseError,
>
    decreases remaining(t, p), 2int,
{
    let p1 = skip_ws(t, p);
    if p1 >= t.len() {
        Ok((acc, p1))
    } else {
        match parse_rule_s(t, p1) {
            Err(e) => Err(e),
            Ok((r, q)) => parse_rules_s(t, onward(p1, q), acc.push(r)),
        }
    }
}

/// Parses a whole stylesheet: rules until the end of the input.
pub open spec fn parse_stylesheet_s(t: Seq<char>) -> Result<StyleSheetView, ParseError> {
    match parse_rules_s(t, 0, Seq::empty()) {
        Err(e) => Err(e),
        Ok((rs, _p)) => Ok(StyleSheetView { rules: rs }),
    }
}

/// Parses a declaration list starting at `p`, appending to `acc`:
/// declarations separated by whitespace, ended by `}` (consumed) or by the
/// end of the input.  Ending at end-of-input is what lets the same entry
/// point parse a rule body and a brace-less inline `style` string alike.
pub open spec fn parse_declarations_s(t: Seq<char>, p: int, acc: Seq<DeclView>) -> Result<
    (Seq<DeclView>, int),
    ParseError,
>
    decreases remaining(t, p), 0int,
{
    let p1 = skip_ws(t, p);
    if p1 >= t.len() {
        Ok((acc, p1))
    } else if t[p1] == '}' {
        Ok((acc, p1 + 1))
    } else {
        match parse_declaration_s(t, p1) {
            Err(e) => Err(e),
            Ok((d, q)) => parse_declarations_s(t, onward(p1, q), acc.push(d)),
        }
    }
}

/// Parses one declaration at `p`: `name : value ;`, with optional
/// whitespace after the name and after the `:`, and `;` directly after the
/// value.
pub open spec fn parse_declaration_s(t: Seq<char>, p: int) -> Result<(DeclView, int), ParseError> {
    let ne = forward(p, scan_end(t, p, CharClass::Identifier));
    let name = t.subrange(p, ne);
    let p1 = skip_ws(t, ne);
    match expect_s(t, p1, ':') {
        Err(e) => Err(e),
        Ok(p2) => {
            let p3 = skip_ws(t, p2);
            match parse_value_s(t, p3) {
                Err(e) => Err(e),
                Ok((v, p4)) => match expect_s(t, p4, ';') {
                    Err(e) => Err(e),
                    Ok(p5) => Ok((DeclView { name, value: v }, p5)),
                },
            }
        },
    }
}

/// Parses one value at `p`: a length when a digit is next, a color after
/// `#`, and a bare keyword otherwise.
pub open spec fn parse_value_s(t: Seq<char>, p: int) -> Result<(ValueView, int), ParseError> {
    if 0 <= p < t.len() && '0' <= t[p] && t[p] <= '9' {
        parse_length_s(t, p)
    } else if 0 <= p < t.len() && t[p] == '#' {
        parse_color_s(t, p)
    } else {
        let e = forward(p, scan_end(t, p, CharClass::Identifier));
        Ok((ValueView::Keyword(t.subrange(p, e)), e))
    }
}

/// Parses a length at `p`: a numeric literal of digits and dots, then a
/// unit.  A literal with two dots fails with `InvalidNumber`.
pub open spec fn parse_length_s(t: Seq<char>, p: int) -> Result<(ValueView, int), ParseError> {
    let e = onward(p, scan_end(t, p, CharClass::Number));
    let lit = t.subrange(p, e);
    if !valid_number(lit) {
        Err(err_at(ErrorKind::InvalidNumber, p))
    } else {
        match parse_unit_s(t, e) {
            Err(er) => Err(er),
            Ok((u, p2)) => Ok((ValueView::Length(lit, u), p2)),
        }
    }
}

/// Parses a unit at `p`: the identifier `px` in any letter case, or `%`;
/// anything else, the empty identifier included, fails with
/// `UnrecognizedUnit`.
pub open spec fn parse_unit_s(t: Seq<char>, p: int) -> Result<(Unit, int), ParseError> {
    let e = forward(p, scan_end(t, p, CharClass::Identifier));
    let u = t.subrange(p, e);
    if u.len() == 2 && (u[0] == 'p' || u[0] == 'P') && (u[1] == 'x' || u[1] == 'X') {
        Ok((Unit::Px, e))
    } else if u.len() == 1 && u[0] == '%' {
        Ok((Unit::Percent, e))
    } else {
        Err(err_at(ErrorKind::UnrecognizedUnit, p))
    }
}

/// The value of a hex digit, or -1.
pub open spec fn hex_digit_val(c: char) -> int {
    if '0' <= c && c <= '9' {
        c as int - '0' as int
    } else if 'a' <= c && c <= 'f' {
        10 + c as int - 'a' as int
    } else if 'A' <= c && c <= 'F' {
        10 + c as int - 'A' as int
    } else {
        -1
    }
}

/// Parses two hex digits at `p` into a byte value.
pub open spec fn hex_pair_s(t: Seq<char>, p: int) -> Result<(int, int), ParseError> {
    if p < 0 || p + 2 > t.len() {
        Err(err_at(ErrorKind::UnexpectedEof, p))
    } else if hex_digit_val(t[p]) < 0 || hex_digit_val(t[p + 1]) < 0 {
        Err(err_at(ErrorKind::InvalidHex, p))
    } else {
        Ok((16 * hex_digit_val(t[p]) + hex_digit_val(t[p + 1]), p + 2))
    }
}

/// Parses a color at `p`: `#`, then exactly three hex byte pairs, red,
/// green, blue; the alpha channel is fixed at 255.
pub open spec fn parse_color_s(t: Seq<char>, p: int) -> Result<(ValueView, int), ParseError> {
    match expect_s(t, p, '#') {
        Err(e) => Err(e),
        Ok(p1) => match hex_pair_s(t, p1) {
            Err(e) => Err(e),
            Ok((r, p2)) => match hex_pair_s(t, p2) {
                Err(e) => Err(e),
                Ok((g, p3)) => match hex_pair_s(t, p3) {
                    Err(e) => Err(e),
                    Ok((b, p4)) => Ok(
                        (
                            ValueView::ColorValue(
                                Color { r: r as u8, g: g as u8, b: b as u8, a: 255 },
                            ),
                            p4,
                        ),
                    ),
                },
            },
        },
    }
}

// ---------------------------------------------------------------------------
// The executable parser
// ---------------------------------------------------------------------------
/// The stylesheet parser: a cursor over the source text.
pub struct Parser {
    pub cur: Cursor,
}

/// The value of one hex digit character, if it is one.
fn hex_digit(c: char) -> (r: Option<u8>)
    ensures
        match r {
            Some(d) => hex_digit_val(c) == d as int && d < 16,
            None => hex_digit_val(c) < 0,
        },
{
    if '0' <= c && c <= '9' {
        Some(((c as u32) - ('0' as u32)) as u8)
    } else if 'a' <= c && c <= 'f' {
        Some((10 + (c as u32) - ('a' as u32)) as u8)
    } else if 'A' <= c && c <= 'F' {
        Some((10 + (c as u32) - ('A' as u32)) as u8)
    } else {
        None
    }
}

impl Parser {
    /// A parser over `source`, standing at its start.
    pub fn new(source: &str) -> (p: Parser)
        ensures
            p.cur.wf(),
            p.cur.text() == source@,
            p.cur.at() == 0,
    {
        Parser { cur: Cursor::new(source) }
    }

    /// Parses a whole stylesheet, as `parse_stylesheet_s` describes: rules
    /// until the end of the input.
    #[verifier::rlimit(50)]
    pub fn parse(source: String) -> (r: Result<StyleSheet, ParseError>)
        ensures
            match r {
                Ok(sheet) => parse_stylesheet_s(source@) == Ok::<StyleSheetView, ParseError>(
                    sheet@,
                ),
                Err(e) => parse_stylesheet_s(source@) == Err::<StyleSheetView, ParseError>(e),
            },
    {
        let mut parser = Parser::new(source.as_str());
        let ghost t = source@;
        let mut rules: Vec<Rule> = Vec::new();
        proof {
            assert(Seq::new(rules@.len(), |i: int| rules@[i]@) =~= Seq::<RuleView>::empty());
        }
        loop
            invariant
                parser.cur.wf(),
                t == source@,
                t == parser.cur.text(),
                0 <= parser.cur.at() <= t.len(),
                parse_rules_s(t, 0, Seq::empty()) == parse_rules_s(
                    t,
                    parser.cur.at(),
                    Seq::new(rules@.len(), |i: int| rules@[i]@),
                ),
            ensures
                parse_rules_s(t, 0, Seq::empty()) == Ok::<(Seq<RuleView>, int), ParseError>(
                    (Seq::new(rules@.len(), |i: int| rules@[i]@), parser.cur.at()),
                ),
            decreases t.len() - parser.cur.at(),
        {
            parser.cur.skip_whitespace();
            if parser.cur.at_end() {
                break;
            }
            let rule = match parser.parse_rule() {
                Ok(r) => r,
                Err(e) => {
                    return Err(e);
                },
            };
            proof {
                let rs = rules@.push(rule);
                assert(Seq::new(rs.len(), |i: int| rs[i]@) =~= Seq::new(
                    rules@.len(),
                    |i: int| rules@[i]@,
                ).push(rule@));
            }
            rules.push(rule);
        }
        let sheet = StyleSheet { rules };
        Ok(sheet)
    }

    /// Parses one rule: its selector list, then its declaration list.
    fn parse_rule(&mut self) -> (r: Result<Rule, ParseError>)
        requires
            old(self).cur.wf(),
        ensures
            final(self).cur.wf(),
            final(self).cur.input == old(self).cur.input,
            old(self).cur.at() <= final(self).cur.at(),
            match r {
                Ok(rule) => parse_rule_s(old(self).cur.text(), old(self).cur.at()) == Ok::<
                    (RuleView, int),
                    ParseError,
                >((rule@, final(self).cur.at())) && old(self).cur.at() < final(self).cur.at(),
                Err(e) => parse_rule_s(old(self).cur.text(), old(self).cur.at()) == Err::<
                    (RuleView, int),
                    ParseError,
                >(e),
            },
    {
        let selectors = match self.parse_selectors() {
            Ok(s) => s,
            Err(e) => {
                return Err(e);
            },
        };
        let declarations = match self.parse_declarations() {
            Ok(d) => d,
            Err(e) => {
                return Err(e);
            },
        };
        Ok(Rule { selectors, declarations })
    }

    /// Parses the selector list of a rule, through its ending `{`, and
    /// returns the selectors sorted most-specific first, stably.
    pub fn parse_selectors(&mut self) -> (r: Result<Vec<Selector>, ParseError>)
        requires
            old(self).cur.wf(),
        ensures
            final(self).cur.wf(),
            final(self).cur.input == old(self).cur.input,
            old(self).cur.at() <= final(self).cur.at(),
            match r {
                Ok(sels) => match collect_selectors_s(
                    old(self).cur.text(),
                    old(self).cur.at(),
                    Seq::empty(),
                ) {
                    Ok((raw, q)) => sels_view(sels@) == sort_desc(raw) && final(self).cur.at()
                        == q && old(self).cur.at() < final(self).cur.at(),
                    Err(_) => false,
                },
                Err(e) => collect_selectors_s(old(self).cur.text(), old(self).cur.at(), Seq::empty())
                    == Err::<(Seq<SelectorView>, int), ParseError>(e),
            },
    {
        let ghost t = old(self).cur.text();
        let ghost p0 = old(self).cur.at();
        let mut sels: Vec<Selector> = Vec::new();
        proof {
            assert(sels_view(sels@) =~= Seq::<SelectorView>::empty());
        }
        loop
            invariant_except_break
                collect_selectors_s(t, p0, Seq::empty()) == collect_selectors_s(
                    t,
                    self.cur.at(),
                    sels_view(sels@),
                ),
            invariant
                self.cur.wf(),
                self.cur.input == old(self).cur.input,
                t == old(self).cur.text(),
                p0 == old(self).cur.at(),
                p0 <= self.cur.at() <= t.len(),
            ensures
                self.cur.wf(),
                self.cur.input == old(self).cur.input,
                p0 < self.cur.at() <= t.len(),
                collect_selectors_s(t, p0, Seq::empty()) == Ok::<
                    (Seq<SelectorView>, int),
                    ParseError,
                >((sels_view(sels@), self.cur.at())),
            decreases t.len() - self.cur.at(),
        {
            let ss = self.parse_simple_selector();
            proof {
                let sv = sels@.push(Selector::Simple(ss));
                assert(sels_view(sv) =~= sels_view(sels@).push(Selector::Simple(ss)@));
            }
            sels.push(Selector::Simple(ss));
            self.cur.skip_whitespace();
            let c = match self.cur.peek() {
                None => {
                    return Err(ParseError { kind: ErrorKind::UnexpectedEof, pos: self.cur.pos });
                },
                Some(c) => c,
            };
            if c == ',' {
                let _ = match self.cur.advance() {
                    Ok(u) => u,
                    Err(e) => {
                        return Err(e);
                    },
                };
                self.cur.skip_whitespace();
            } else if c == '{' {
                let _ = match self.cur.advance() {
                    Ok(u) => u,
                    Err(e) => {
                        return Err(e);
                    },
                };
                break;
            } else {
                return Err(ParseError { kind: ErrorKind::UnexpectedCharacter, pos: self.cur.pos });
            }
        }
        // Sort the collected selectors descending by specificity, stably.
        let ghost raw = sels_view(sels@);
        let mut sorted: Vec<Selector> = Vec::new();
        let ghost orig = sels@;
        let ghost k: int = 0;
        while sels.len() > 0
            invariant
                0 <= k <= orig.len(),
                sels@ =~= orig.skip(k),
                sels_view(sorted@) == sort_desc(sels_view(orig).take(k)),
            decreases sels@.len(),
        {
            let x = sels.remove(0);
            let xs = x.specificity();
            let mut j: usize = 0;
            loop
                invariant
                    0 <= j <= sorted.len(),
                    forall|i: int| 0 <= i < j ==> specificity_le(
                        sel_specificity(x@),
                        sel_specificity(sels_view(sorted@)[i]),
                    ),
                    (xs.0 as int, xs.1 as int, xs.2 as int) == sel_specificity(x@),
                ensures
                    0 <= j <= sorted.len(),
                    forall|i: int| 0 <= i < j ==> specificity_le(
                        sel_specificity(x@),
                        sel_specificity(sels_view(sorted@)[i]),
                    ),
                    j == sorted.len() || !specificity_le(
                        sel_specificity(x@),
                        sel_specificity(sels_view(sorted@)[j as int]),
                    ),
                decreases sorted.len() - j,
            {
                if j >= sorted.len() {
                    break;
                }
                let js = sorted[j].specificity();
                if !specificity_le_exec(xs, js) {
                    break;
                }
                j = j + 1;
            }
            proof {
                lemma_insert_desc_at(x@, sels_view(sorted@), j as int);
                assert(sels_view(orig).take(k + 1).drop_last() =~= sels_view(orig).take(k));
                assert(sels_view(orig).take(k + 1).last() == x@);
            }
            let ghost before = sels_view(sorted@);
            sorted.insert(j, x);
            proof {
                assert(sels_view(sorted@) =~= before.take(j as int) + seq![x@] + before.skip(
                    j as int,
                ));
                assert(sels@ =~= orig.skip(k + 1));
                k = k + 1;
            }
        }
        proof {
            assert(sels_view(orig).take(orig.len() as int) =~= sels_view(orig));
            assert(raw == sels_view(orig));
        }
        Ok(sorted)
    }

    /// Parses one simple selector: `#id`, `.class`, `*` and tag-name
    /// fragments in any order; never fails.
    pub fn parse_simple_selector(&mut self) -> (r: SimpleSelector)
        requires
            old(self).cur.wf(),
        ensures
            final(self).cur.wf(),
            final(self).cur.input == old(self).cur.input,
            old(self).cur.at() <= final(self).cur.at(),
            parse_simple_selector_s(
                old(self).cur.text(),
                old(self).cur.at(),
                SimpleSelectorView { tag_name: None, id: None, class: Seq::empty() },
            ) == (r@, final(self).cur.at()),
    {
        let ghost t = old(self).cur.text();
        let ghost p0 = old(self).cur.at();
        let mut sel = SimpleSelector { tag_name: None, id: None, class: Vec::new() };
        proof {
            assert(strings_view(sel.class@) =~= Seq::<Seq<char>>::empty());
        }
        loop
            invariant
                self.cur.wf(),
                self.cur.input == old(self).cur.input,
                t == old(self).cur.text(),
                p0 == old(self).cur.at(),
                p0 <= self.cur.at() <= t.len(),
                parse_simple_selector_s(
                    t,
                    p0,
                    SimpleSelectorView { tag_name: None, id: None, class: Seq::empty() },
                ) == parse_simple_selector_s(t, self.cur.at(), sel@),
            ensures
                self.cur.wf(),
                self.cur.input == old(self).cur.input,
                p0 <= self.cur.at() <= t.len(),
                parse_simple_selector_s(
                    t,
                    p0,
                    SimpleSelectorView { tag_name: None, id: None, class: Seq::empty() },
                ) == (sel@, self.cur.at()),
            decreases t.len() - self.cur.at(),
        {
            let c = match self.cur.peek() {
                None => {
                    break;
                },
                Some(c) => c,
            };
            if c == '#' {
                let _ = match self.cur.advance() {
                    Ok(u) => u,
                    Err(_) => {
                        break;
                    },
                };
                let id = self.cur.consume_while(CharClass::Identifier);
                sel.id = Some(id);
            } else if c == '.' {
                let _ = match self.cur.advance() {
                    Ok(u) => u,
                    Err(_) => {
                        break;
                    },
                };
                let cls = self.cur.consume_while(CharClass::Identifier);
                proof {
                    let cv = sel.class@.push(cls);
                    assert(strings_view(cv) =~= strings_view(sel.class@).push(cls@));
                }
                sel.class.push(cls);
            } else if c == '*' {
                let _ = match self.cur.advance() {
                    Ok(u) => u,
                    Err(_) => {
                        break;
                    },
                };
            } else if crate::cursor::check_char(CharClass::Identifier, c) {
                proof {
                    crate::cursor::lemma_scan_end(t, self.cur.at() + 1, CharClass::Identifier);
                }
                let tag = self.cur.consume_while(CharClass::Identifier);
                sel.tag_name = Some(tag);
            } else {
                break;
            }
        }
        sel
    }

    /// Parses a declaration list: declarations until `}` (consumed) or the
    /// end of the input.  This is the entry point for inline `style`
    /// strings, which have no braces at all, as well as for rule bodies.
    pub fn parse_declarations(&mut self) -> (r: Result<Vec<Declaration>, ParseError>)
        requires
            old(self).cur.wf(),
        ensures
            final(self).cur.wf(),
            final(self).cur.input == old(self).cur.input,
            old(self).cur.at() <= final(self).cur.at(),
            match r {
                Ok(decls) => parse_declarations_s(
                    old(self).cur.text(),
                    old(self).cur.at(),
                    Seq::empty(),
                ) == Ok::<(Seq<DeclView>, int), ParseError>(
                    (decls_view(decls@), final(self).cur.at()),
                ),
                Err(e) => parse_declarations_s(
                    old(self).cur.text(),
                    old(self).cur.at(),
                    Seq::empty(),
                ) == Err::<(Seq<DeclView>, int), ParseError>(e),
            },
    {
        let ghost t = old(self).cur.text();
        let ghost p0 = old(self).cur.at();
        let mut decls: Vec<Declaration> = Vec::new();
        proof {
            assert(decls_view(decls@) =~= Seq::<DeclView>::empty());
        }
        loop
            invariant_except_break
                parse_declarations_s(t, p0, Seq::empty()) == parse_declarations_s(
                    t,
                    self.cur.at(),
                    decls_view(decls@),
                ),
            invariant
                self.cur.wf(),
                self.cur.input == old(self).cur.input,
                t == old(self).cur.text(),
                p0 == old(self).cur.at(),
                p0 <= self.cur.at() <= t.len(),
            ensures
                self.cur.wf(),
                self.cur.input == old(self).cur.input,
                p0 <= self.cur.at() <= t.len(),
                parse_declarations_s(t, p0, Seq::empty()) == Ok::<
                    (Seq<DeclView>, int),
                    ParseError,
                >((decls_view(decls@), self.cur.at())),
            decreases t.len() - self.cur.at(),
        {
            self.cur.skip_whitespace();
            let c = match self.cur.peek() {
                None => {
                    break;
                },
                Some(c) => c,
            };
            if c == '}' {
                let _ = match self.cur.advance() {
                    Ok(u) => u,
                    Err(_) => {
                        break;
                    },
                };
                break;
            }
            let d = match self.parse_declaration() {
                Ok(d) => d,
                Err(e) => {
                    return Err(e);
                },
            };
            proof {
                let dv = decls@.push(d);
                assert(decls_view(dv) =~= decls_view(decls@).push(d@));
            }
            decls.push(d);
        }
        Ok(decls)
    }

    /// Parses one declaration: `name : value ;`.
    fn parse_declaration(&mut self) -> (r: Result<Declaration, ParseError>)
        requires
            old(self).cur.wf(),
        ensures
            final(self).cur.wf(),
            final(self).cur.input == old(self).cur.input,
            old(self).cur.at() <= final(self).cur.at(),
            match r {
                Ok(d) => parse_declaration_s(old(self).cur.text(), old(self).cur.at()) == Ok::<
                    (DeclView, int),
                    ParseError,
                >((d@, final(self).cur.at())) && old(self).cur.at() < final(self).cur.at(),
                Err(e) => parse_declaration_s(old(self).cur.text(), old(self).cur.at()) == Err::<
                    (DeclView, int),
                    ParseError,
                >(e),
            },
    {
        let name = self.cur.consume_while(CharClass::Identifier);
        self.cur.skip_whitespace();
        match self.cur.expect(':') {
            Ok(u) => u,
            Err(e) => {
                return Err(e);
            },
        };
        self.cur.skip_whitespace();
        let value = match self.parse_value() {
            Ok(v) => v,
            Err(e) => {
                return Err(e);
            },
        };
        match self.cur.expect(';') {
            Ok(u) => u,
            Err(e) => {
                return Err(e);
            },
        };
        Ok(Declaration { name, value })
    }

    /// Parses one value: a length, a color, or a keyword.
    fn parse_value(&mut self) -> (r: Result<Value, ParseError>)
        requires
            old(self).cur.wf(),
        ensures
            final(self).cur.wf(),
            final(self).cur.input == old(self).cur.input,
            old(self).cur.at() <= final(self).cur.at(),
            match r {
                Ok(v) => parse_value_s(old(self).cur.text(), old(self).cur.at()) == Ok::<
                    (ValueView, int),
                    ParseError,
                >((v@, final(self).cur.at())),
                Err(e) => parse_value_s(old(self).cur.text(), old(self).cur.at()) == Err::<
                    (ValueView, int),
                    ParseError,
                >(e),
            },
    {
        match self.cur.peek() {
            Some(c) if '0' <= c && c <= '9' => self.parse_length(),
            Some(c) if c == '#' => self.parse_color(),
            _ => {
                let kw = self.cur.consume_while(CharClass::Identifier);
                Ok(Value::Keyword(kw))
            },
        }
    }

    /// Parses a length: a numeric literal, then its unit.
    fn parse_length(&mut self) -> (r: Result<Value, ParseError>)
        requires
            old(self).cur.wf(),
            old(self).cur.at() < old(self).cur.text().len(),
            '0' <= old(self).cur.text()[old(self).cur.at()],
            old(self).cur.text()[old(self).cur.at()] <= '9',
        ensures
            final(self).cur.wf(),
            final(self).cur.input == old(self).cur.input,
            old(self).cur.at() <= final(self).cur.at(),
            match r {
                Ok(v) => parse_length_s(old(self).cur.text(), old(self).cur.at()) == Ok::<
                    (ValueView, int),
                    ParseError,
                >((v@, final(self).cur.at())),
                Err(e) => parse_length_s(old(self).cur.text(), old(self).cur.at()) == Err::<
                    (ValueView, int),
                    ParseError,
                >(e),
            },
    {
        let ghost t = old(self).cur.text();
        let ghost p = old(self).cur.at();
        proof {
            crate::cursor::lemma_scan_end(t, p + 1, CharClass::Number);
        }
        let start = self.cur.pos;
        let lit = self.cur.consume_while(CharClass::Number);
        if !number_has_at_most_one_dot(&lit) {
            return Err(ParseError { kind: ErrorKind::InvalidNumber, pos: start });
        }
        match self.parse_unit() {
            Ok(u) => Ok(Value::Length(lit, u)),
            Err(e) => Err(e),
        }
    }

    /// Parses a unit identifier: `px` (any letter case) or `%`.
    fn parse_unit(&mut self) -> (r: Result<Unit, ParseError>)
        requires
            old(self).cur.wf(),
        ensures
            final(self).cur.wf(),
            final(self).cur.input == old(self).cur.input,
            old(self).cur.at() <= final(self).cur.at(),
            match r {
                Ok(u) => parse_unit_s(old(self).cur.text(), old(self).cur.at()) == Ok::<
                    (Unit, int),
                    ParseError,
                >((u, final(self).cur.at())),
                Err(e) => parse_unit_s(old(self).cur.text(), old(self).cur.at()) == Err::<
                    (Unit, int),
                    ParseError,
                >(e),
            },
    {
        let start = self.cur.pos;
        let ident = self.cur.consume_while(CharClass::Identifier);
        let n = ident.as_str().unicode_len();
        if n == 2 {
            let c0 = ident.as_str().get_char(0);
            let c1 = ident.as_str().get_char(1);
            if (c0 == 'p' || c0 == 'P') && (c1 == 'x' || c1 == 'X') {
                return Ok(Unit::Px);
            }
        } else if n == 1 {
            let c0 = ident.as_str().get_char(0);
            if c0 == '%' {
                return Ok(Unit::Percent);
            }
        }
        Err(ParseError { kind: ErrorKind::UnrecognizedUnit, pos: start })
    }

    /// Parses a color: `#` and three hex byte pairs.
    fn parse_color(&mut self) -> (r: Result<Value, ParseError>)
        requires
            old(self).cur.wf(),
        ensures
            final(self).cur.wf(),
            final(self).cur.input == old(self).cur.input,
            old(self).cur.at() <= final(self).cur.at(),
            match r {
                Ok(v) => parse_color_s(old(self).cur.text(), old(self).cur.at()) == Ok::<
                    (ValueView, int),
                    ParseError,
                >((v@, final(self).cur.at())),
                Err(e) => parse_color_s(old(self).cur.text(), old(self).cur.at()) == Err::<
                    (ValueView, int),
                    ParseError,
                >(e),
            },
    {
        match self.cur.expect('#') {
            Ok(u) => u,
            Err(e) => {
                return Err(e);
            },
        };
        let r = match self.parse_hex_pair() {
            Ok(v) => v,
            Err(e) => {
                return Err(e);
            },
        };
        let g = match self.parse_hex_pair() {
            Ok(v) => v,
            Err(e) => {
                return Err(e);
            },
        };
        let b = match self.parse_hex_pair() {
            Ok(v) => v,
            Err(e) => {
                return Err(e);
            },
        };
        Ok(Value::ColorValue(Color { r, g, b, a: 255 }))
    }

    /// Parses two hex digits into one byte.
    fn parse_hex_pair(&mut self) -> (r: Result<u8, ParseError>)
        requires
            old(self).cur.wf(),
        ensures
            final(self).cur.wf(),
            final(self).cur.input == old(self).cur.input,
            old(self).cur.at() <= final(self).cur.at(),
            match r {
                Ok(v) => hex_pair_s(old(self).cur.text(), old(self).cur.at()) == Ok::<
                    (int, int),
                    ParseError,
                >((v as int, final(self).cur.at())),
                Err(e) => hex_pair_s(old(self).cur.text(), old(self).cur.at()) == Err::<
                    (int, int),
                    ParseError,
                >(e),
            },
    {
        if self.cur.input.len() - self.cur.pos < 2 {
            return Err(ParseError { kind: ErrorKind::UnexpectedEof, pos: self.cur.pos });
        }
        let c0 = self.cur.input[self.cur.pos];
        let c1 = self.cur.input[self.cur.pos + 1];
        let d0 = match hex_digit(c0) {
            Some(d) => d,
            None => {
                return Err(ParseError { kind: ErrorKind::InvalidHex, pos: self.cur.pos });
            },
        };
        let d1 = match hex_digit(c1) {
            Some(d) => d,
            None => {
                return Err(ParseError { kind: ErrorKind::InvalidHex, pos: self.cur.pos });
            },
        };
        self.cur.pos = self.cur.pos + 2;
        Ok(16 * d0 + d1)
    }
}

/// Does the numeric literal hold at most one decimal point?
fn number_has_at_most_one_dot(s: &String) -> (r: bool)
    ensures
        r == valid_number(s@),
{
    let n = s.as_str().unicode_len();
    let mut dots: usize = 0;
    let mut i: usize = 0;
    while i < n
        invariant
            i <= n,
            n == s@.len(),
            dots <= i,
            dots == count_char(s@.take(i as int), '.'),
        decreases n - i,
    {
        proof {
            assert(s@.take(i + 1).drop_last() =~= s@.take(i as int));
        }
        if s.as_str().get_char(i) == '.' {
            dots = dots + 1;
        }
        i = i + 1;
    }
    proof {
        assert(s@.take(n as int) =~= s@);
    }
    dots <= 1
}


} // verus!
