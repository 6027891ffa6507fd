use vstd::prelude::*;
use vstd::string::StringExecFns;
use crate::cursor::{CharClass, Cursor, ParseError, onward, remaining, scan_end, skip_ws};
use crate::css::{
    DeclView, Rule, RuleView, Selector, SelectorView, SimpleSelector, Specificity, StyleSheet,
    StyleSheetView, Value, ValueView, parse_declarations_s,
    sel_specificity, specificity_le, specificity_le_exec, strings_view,
};
use crate::dom::{
    ElemView, ElementData, Node, NodeType, NodeTypeView, NodeView, node_view, nodes_view_seq,
};

verus! {

// ---------------------------------------------------------------------------
// The property map
// ---------------------------------------------------------------------------
/// The resolved name-to-value mapping of one element.  Kept as the pairs in
/// insertion order; its view is the map in which a later pair for a name
/// overrides an earlier one.
#[derive(Debug)]
pub struct PropertyMap {
    pub pairs: Vec<(String, Value)>,
}

/// The pairs of a property map, as views.
pub open spec fn prop_pairs_view(ps: Seq<(String, Value)>) -> Seq<(Seq<char>, ValueView)> {
    Seq::new(ps.len(), |i: int| (ps[i].0@, ps[i].1@))
}

/// The mapping a pair sequence stands for: later pairs override earlier ones.
pub open spec fn map_of_props(ps: Seq<(Seq<char>, ValueView)>) -> Map<Seq<char>, ValueView>
    decreases ps.len(),
{
    if ps.len() == 0 {
        Map::empty()
    } else {
        map_of_props(ps.drop_last()).insert(ps.last().0, ps.last().1)
    }
}

impl View for PropertyMap {
    type V = Map<Seq<char>, ValueView>;

    open spec fn view(&self) -> Map<Seq<char>, ValueView> {
        map_of_props(prop_pairs_view(self.pairs@))
    }
}

impl PropertyMap {
    /// The empty property map.
    pub fn new() -> (m: PropertyMap)
        ensures
            m@ == Map::<Seq<char>, ValueView>::empty(),
            m.pairs@.len() == 0,
    {
        PropertyMap { pairs: Vec::new() }
    }

    /// Binds `name` to `value`; a later binding for the same name wins.
    pub fn insert(&mut self, name: String, value: Value)
        ensures
            final(self)@ == old(self)@.insert(name@, value@),
    {
        let ghost before = prop_pairs_view(self.pairs@);
        self.pairs.push((name, value));
        proof {
            assert(prop_pairs_view(self.pairs@).drop_last() =~= before);
        }
    }

    /// The value bound to `name`, if any.
    pub fn get<'a>(&'a self, name: &String) -> (r: Option<&'a Value>)
        ensures
            match r {
                Some(v) => self@.contains_key(name@) && v@ == self@[name@],
                None => !self@.contains_key(name@),
            },
    {
        let mut i: usize = self.pairs.len();
        proof {
            assert(prop_pairs_view(self.pairs@).take(self.pairs@.len() as int)
                =~= prop_pairs_view(self.pairs@));
        }
        loop
            invariant
                i <= self.pairs.len(),
                self@.contains_key(name@) ==> map_of_props(
                    prop_pairs_view(self.pairs@).take(i as int),
                ).contains_key(name@) && map_of_props(
                    prop_pairs_view(self.pairs@).take(i as int),
                )[name@] == self@[name@],
                map_of_props(prop_pairs_view(self.pairs@).take(i as int)).contains_key(name@)
                    ==> self@.contains_key(name@),
            ensures
                i == 0,
                !self@.contains_key(name@),
            decreases i,
        {
            if i == 0 {
                proof {
                    assert(prop_pairs_view(self.pairs@).take(0) =~= Seq::<(
                        Seq<char>,
                        ValueView,
                    )>::empty());
                }
                break;
            }
            let ghost part = prop_pairs_view(self.pairs@).take(i as int);
            proof {
                assert(part.drop_last() =~= prop_pairs_view(self.pairs@).take(i - 1));
                assert(part.last() == (self.pairs@[i - 1].0@, self.pairs@[i - 1].1@));
            }
            if self.pairs[i - 1].0 == *name {
                return Some(&self.pairs[i - 1].1);
            }
            i = i - 1;
        }
        None
    }
}

// ---------------------------------------------------------------------------
// Selector matching
// ---------------------------------------------------------------------------
/// The words of `t` from `p` on, split on whitespace, appended to `acc`.
pub open spec fn split_ws_s(t: Seq<char>, p: int, acc: Seq<Seq<char>>) -> Seq<Seq<char>>
    decreases remaining(t, p),
{
    let p1 = skip_ws(t, p);
    if p1 >= t.len() {
        acc
    } else {
        let e = onward(p1, scan_end(t, p1, CharClass::NotWhitespace));
        split_ws_s(t, e, acc.push(t.subrange(p1, e)))
    }
}

/// The class names of an element: its `class` attribute split on
/// whitespace, or none without that attribute.
pub open spec fn elem_classes(e: ElemView) -> Seq<Seq<char>> {
    if e.attributes.contains_key("class"@) {
        split_ws_s(e.attributes["class"@], 0, Seq::empty())
    } else {
        Seq::empty()
    }
}

/// Is `w` one of `words`?
pub open spec fn word_in(words: Seq<Seq<char>>, w: Seq<char>) -> bool {
    exists|i: int| 0 <= i < words.len() && words[i] == w
}

/// Does the selector match the element?  Every present part must hold: the
/// tag name equals the element's, the id equals the element's `id`
/// attribute, and every selector class is among the element's classes.
pub open spec fn sel_matches(e: ElemView, s: SelectorView) -> bool {
    match s {
        SelectorView::Simple(ss) => {
            &&& match ss.tag_name {
                Some(tn) => e.tag_name == tn,
                None => true,
            }
            &&& match ss.id {
                Some(id) => e.attributes.contains_key("id"@) && e.attributes["id"@] == id,
                None => true,
            }
            &&& forall|i: int|
                0 <= i < ss.class.len() ==> word_in(elem_classes(e), ss.class[i])
        },
    }
}

/// The element's `class` attribute value split into words.
fn split_whitespace_words(s: &String) -> (v: Vec<String>)
    ensures
        strings_view(v@) == split_ws_s(s@, 0, Seq::empty()),
{
    let mut cur = Cursor::new(s.as_str());
    let mut words: Vec<String> = Vec::new();
    let ghost t = s@;
    proof {
        assert(strings_view(words@) =~= Seq::<Seq<char>>::empty());
    }
    loop
        invariant
            cur.wf(),
            t == cur.text(),
            0 <= cur.at() <= t.len(),
            split_ws_s(t, 0, Seq::empty()) == split_ws_s(t, cur.at(), strings_view(words@)),
        ensures
            split_ws_s(t, 0, Seq::empty()) == strings_view(words@),
        decreases t.len() - cur.at(),
    {
        let ghost pre = cur.at();
        cur.skip_whitespace();
        if cur.at_end() {
            break;
        }
        proof {
            crate::cursor::lemma_scan_end(t, pre, CharClass::Whitespace);
            crate::cursor::lemma_scan_end(t, cur.at() + 1, CharClass::NotWhitespace);
        }
        let word = cur.consume_while(CharClass::NotWhitespace);
        proof {
            let wv = words@.push(word);
            assert(strings_view(wv) =~= strings_view(words@).push(word@));
        }
        words.push(word);
    }
    words
}

/// Is `w` among the strings of `v`?
fn contains_string(v: &Vec<String>, w: &String) -> (b: bool)
    ensures
        b == word_in(strings_view(v@), w@),
{
    let mut i: usize = 0;
    loop
        invariant
            i <= v.len(),
            forall|j: int| 0 <= j < i ==> strings_view(v@)[j] != w@,
        ensures
            i == v.len(),
            forall|j: int| 0 <= j < i ==> strings_view(v@)[j] != w@,
        decreases v.len() - i,
    {
        if i >= v.len() {
            break;
        }
        if v[i] == *w {
            proof {
                assert(strings_view(v@)[i as int] == w@);
            }
            return true;
        }
        i = i + 1;
    }
    false
}

/// Does the selector match the element?
pub fn matches(elem: &ElementData, selector: &Selector) -> (b: bool)
    ensures
        b == sel_matches(elem@, selector@),
{
    match selector {
        Selector::Simple(s) => matches_simple_selector(elem, s),
    }
}

/// Does the simple selector match the element?  Checks the tag name, the
/// id, and the classes in turn, and fails on the first part that does not
/// hold.
pub fn matches_simple_selector(elem: &ElementData, selector: &SimpleSelector) -> (b: bool)
    ensures
        b == sel_matches(elem@, SelectorView::Simple(selector@)),
{
    match &selector.tag_name {
        Some(tn) => {
            if !(elem.tag_name == *tn) {
                return false;
            }
        },
        None => {},
    }
    match &selector.id {
        Some(id) => {
            match elem.attributes.get(&String::from_str("id")) {
                None => {
                    return false;
                },
                Some(v) => {
                    if !(*v == *id) {
                        return false;
                    }
                },
            }
        },
        None => {},
    }
    let words: Vec<String> = match elem.attributes.get(&String::from_str("class")) {
        Some(ca) => split_whitespace_words(ca),
        None => Vec::new(),
    };
    proof {
        if !elem@.attributes.contains_key("class"@) {
            assert(strings_view(Seq::<String>::empty()) =~= Seq::<Seq<char>>::empty());
        }
    }
    let mut i: usize = 0;
    loop
        invariant
            i <= selector.class.len(),
            strings_view(words@) == elem_classes(elem@),
            forall|j: int| 0 <= j < i ==> word_in(elem_classes(elem@), selector@.class[j]),
        ensures
            i == selector.class.len(),
            forall|j: int| 0 <= j < i ==> word_in(elem_classes(elem@), selector@.class[j]),
        decreases selector.class.len() - i,
    {
        if i >= selector.class.len() {
            break;
        }
        if !contains_string(&words, &selector.class[i]) {
            proof {
                assert(selector@.class[i as int] == selector.class@[i as int]@);
            }
            return false;
        }
        i = i + 1;
    }
    true
}

// ---------------------------------------------------------------------------
// Matching rules and the cascade order
// ---------------------------------------------------------------------------
/// The specificity of the first selector of the rule that matches the
/// element, if any.  The selectors stand sorted most-specific first, so the
/// first match is the most specific one; a rule enters the match set at
/// most once.
pub open spec fn rule_first_match(e: ElemView, sels: Seq<SelectorView>) -> Option<(int, int, int)>
    decreases sels.len(),
{
    if sels.len() == 0 {
        None
    } else if sel_matches(e, sels[0]) {
        Some(sel_specificity(sels[0]))
    } else {
        rule_first_match(e, sels.drop_first())
    }
}

/// A matched rule: the specificity it matched with, and its index in the
/// stylesheet.
pub type MatchedRule = (Specificity, usize);

/// The views of matched-rule pairs.
pub open spec fn matched_pairs_view(v: Seq<MatchedRule>) -> Seq<((int, int, int), int)> {
    Seq::new(
        v.len(),
        |i: int| ((v[i].0.0 as int, v[i].0.1 as int, v[i].0.2 as int), v[i].1 as int),
    )
}

/// The rules of the stylesheet matching the element, from index `i` on, in
/// source order, appended to `acc`: each with the specificity of its first
/// matching selector.
pub open spec fn matched_rules_s(
    e: ElemView,
    rules: Seq<RuleView>,
    i: int,
    acc: Seq<((int, int, int), int)>,
) -> Seq<((int, int, int), int)>
    decreases rules.len() - i,
{
    if i < 0 || i >= rules.len() {
        acc
    } else {
        match rule_first_match(e, rules[i].selectors) {
            Some(sp) => matched_rules_s(e, rules, i + 1, acc.push((sp, i))),
            None => matched_rules_s(e, rules, i + 1, acc),
        }
    }
}

/// The first matching selector's specificity for this rule and element.
pub fn match_rule(elem: &ElementData, rule: &Rule) -> (r: Option<Specificity>)
    ensures
        match r {
            Some(sp) => rule_first_match(elem@, rule@.selectors) == Some(
                (sp.0 as int, sp.1 as int, sp.2 as int),
            ),
            None => rule_first_match(elem@, rule@.selectors) is None,
        },
{
    let mut i: usize = 0;
    proof {
        assert(rule@.selectors.skip(0) =~= rule@.selectors);
    }
    loop
        invariant
            i <= rule.selectors.len(),
            rule_first_match(elem@, rule@.selectors) == rule_first_match(
                elem@,
                rule@.selectors.skip(i as int),
            ),
        ensures
            i == rule.selectors.len(),
            rule_first_match(elem@, rule@.selectors) is None,
        decreases rule.selectors.len() - i,
    {
        if i >= rule.selectors.len() {
            proof {
                assert(rule@.selectors.skip(i as int) =~= Seq::<SelectorView>::empty());
            }
            break;
        }
        proof {
            assert(rule@.selectors.skip(i as int)[0] == rule.selectors@[i as int]@);
        }
        if matches(elem, &rule.selectors[i]) {
            let sp = rule.selectors[i].specificity();
            return Some(sp);
        }
        proof {
            assert(rule@.selectors.skip(i as int).drop_first() =~= rule@.selectors.skip(i + 1));
        }
        i = i + 1;
    }
    None
}

/// Every rule of the stylesheet matching the element, in source order,
/// paired with its matched specificity and its index.
pub fn matching_rules(elem: &ElementData, stylesheet: &StyleSheet) -> (v: Vec<MatchedRule>)
    ensures
        matched_pairs_view(v@) == matched_rules_s(elem@, stylesheet@.rules, 0, Seq::empty()),
        forall|k: int| 0 <= k < v@.len() ==> (v@[k].1 as int) < stylesheet@.rules.len(),
{
    let mut out: Vec<MatchedRule> = Vec::new();
    let mut i: usize = 0;
    proof {
        assert(matched_pairs_view(out@) =~= Seq::<((int, int, int), int)>::empty());
    }
    loop
        invariant
            i <= stylesheet.rules.len(),
            matched_rules_s(elem@, stylesheet@.rules, 0, Seq::empty()) == matched_rules_s(
                elem@,
                stylesheet@.rules,
                i as int,
                matched_pairs_view(out@),
            ),
            forall|k: int| 0 <= k < out@.len() ==> (out@[k].1 as int) < stylesheet@.rules.len(),
        ensures
            matched_rules_s(elem@, stylesheet@.rules, 0, Seq::empty()) == matched_pairs_view(out@),
            forall|k: int| 0 <= k < out@.len() ==> (out@[k].1 as int) < stylesheet@.rules.len(),
        decreases stylesheet.rules.len() - i,
    {
        if i >= stylesheet.rules.len() {
            break;
        }
        proof {
            assert(stylesheet@.rules[i as int] == stylesheet.rules@[i as int]@);
        }
        match match_rule(elem, &stylesheet.rules[i]) {
            Some(sp) => {
                proof {
                    let nv = out@.push((sp, i));
                    assert(matched_pairs_view(nv) =~= matched_pairs_view(out@).push(
                        ((sp.0 as int, sp.1 as int, sp.2 as int), i as int),
                    ));
                }
                out.push((sp, i));
            },
            None => {},
        }
        i = i + 1;
    }
    out
}

/// `x` placed into the ascending-sorted `s`: after every element no more
/// specific, before the first strictly more specific one, so that among
/// equal specificities the earlier (source-order) element stays first.
pub open spec fn insert_asc(x: ((int, int, int), int), s: Seq<((int, int, int), int)>) -> Seq<
    ((int, int, int), int),
>
    decreases s.len(),
{
    if s.len() > 0 && specificity_le(s[0].0, x.0) {
        seq![s[0]] + insert_asc(x, s.drop_first())
    } else {
        seq![x] + s
    }
}

/// `s` sorted ascending by specificity, stably.
pub open spec fn sort_asc(s: Seq<((int, int, int), int)>) -> Seq<((int, int, int), int)>
    decreases s.len(),
{
    if s.len() == 0 {
        Seq::empty()
    } else {
        insert_asc(s.last(), sort_asc(s.drop_last()))
    }
}

pub proof fn lemma_insert_asc_at(
    x: ((int, int, int), int),
    s: Seq<((int, int, int), int)>,
    j: int,
)
    requires
        0 <= j <= s.len(),
        forall|i: int| 0 <= i < j ==> specificity_le(s[i].0, x.0),
        j == s.len() || !specificity_le(s[j].0, x.0),
    ensures
        insert_asc(x, s) == s.take(j) + seq![x] + s.skip(j),
    decreases j,
{
    if j == 0 {
        assert(insert_asc(x, s) =~= s.take(0) + seq![x] + s.skip(0));
    } else {
        lemma_insert_asc_at(x, s.drop_first(), j - 1);
        assert(seq![s[0]] + (s.drop_first().take(j - 1) + seq![x] + s.drop_first().skip(j - 1))
            =~= s.take(j) + seq![x] + s.skip(j));
    }
}

/// The matched rules sorted ascending by specificity, stably: the merge
/// walks them in this order, so later — more specific — rules overwrite.
fn sort_matched(mut v: Vec<MatchedRule>, Ghost(bound): Ghost<int>) -> (r: Vec<MatchedRule>)
    requires
        forall|k: int| 0 <= k < v@.len() ==> (#[trigger] v@[k]).1 < bound,
    ensures
        matched_pairs_view(r@) == sort_asc(matched_pairs_view(v@)),
        forall|k: int| 0 <= k < r@.len() ==> (#[trigger] r@[k]).1 < bound,
{
    let ghost orig = v@;
    let mut sorted: Vec<MatchedRule> = Vec::new();
    let ghost k: int = 0;
    proof {
        assert(matched_pairs_view(sorted@) =~= Seq::<((int, int, int), int)>::empty());
        assert(matched_pairs_view(orig).take(0) =~= Seq::<((int, int, int), int)>::empty());
    }
    while v.len() > 0
        invariant
            0 <= k <= orig.len(),
            v@ =~= orig.skip(k),
            matched_pairs_view(sorted@) == sort_asc(matched_pairs_view(orig).take(k)),
            forall|q: int| 0 <= q < orig.len() ==> (#[trigger] orig[q]).1 < bound,
            forall|q: int| 0 <= q < sorted@.len() ==> (#[trigger] sorted@[q]).1 < bound,
        decreases v@.len(),
    {
        let x = v.remove(0);
        proof {
            assert(x == orig[k]);
        }
        let xs = x.0;
        let mut j: usize = 0;
        loop
            invariant
                0 <= j <= sorted.len(),
                forall|i: int| 0 <= i < j ==> specificity_le(
                    matched_pairs_view(sorted@)[i].0,
                    (xs.0 as int, xs.1 as int, xs.2 as int),
                ),
                xs == x.0,
            ensures
                0 <= j <= sorted.len(),
                forall|i: int| 0 <= i < j ==> specificity_le(
                    matched_pairs_view(sorted@)[i].0,
                    (xs.0 as int, xs.1 as int, xs.2 as int),
                ),
                j == sorted.len() || !specificity_le(
                    matched_pairs_view(sorted@)[j as int].0,
                    (xs.0 as int, xs.1 as int, xs.2 as int),
                ),
            decreases sorted.len() - j,
        {
            if j >= sorted.len() {
                break;
            }
            let js = sorted[j].0;
            proof {
                assert(matched_pairs_view(sorted@)[j as int].0 == (
                    js.0 as int,
                    js.1 as int,
                    js.2 as int,
                ));
            }
            if !specificity_le_exec(js, xs) {
                break;
            }
            j = j + 1;
        }
        proof {
            lemma_insert_asc_at(
                ((xs.0 as int, xs.1 as int, xs.2 as int), x.1 as int),
                matched_pairs_view(sorted@),
                j as int,
            );
            assert(matched_pairs_view(orig).take(k + 1).drop_last() =~= matched_pairs_view(
                orig,
            ).take(k));
            assert(matched_pairs_view(orig).take(k + 1).last() == (
                (xs.0 as int, xs.1 as int, xs.2 as int),
                x.1 as int,
            ));
        }
        let ghost before = matched_pairs_view(sorted@);
        sorted.insert(j, x);
        proof {
            assert(matched_pairs_view(sorted@) =~= before.take(j as int) + seq![
                ((xs.0 as int, xs.1 as int, xs.2 as int), x.1 as int),
            ] + before.skip(j as int));
            assert(v@ =~= orig.skip(k + 1));
            k = k + 1;
        }
    }
    proof {
        assert(matched_pairs_view(orig).take(orig.len() as int) =~= matched_pairs_view(orig));
    }
    sorted
}

// ---------------------------------------------------------------------------
// The cascade
// ---------------------------------------------------------------------------
/// `ds` merged into `m` in order: each declaration binds its name,
/// overwriting an earlier binding.
pub open spec fn apply_decls(m: Map<Seq<char>, ValueView>, ds: Seq<DeclView>) -> Map<
    Seq<char>,
    ValueView,
>
    decreases ds.len(),
{
    if ds.len() == 0 {
        m
    } else {
        apply_decls(m, ds.drop_last()).insert(ds.last().name, ds.last().value)
    }
}

/// The declarations of the matched rules merged into `m` in the order of
/// `sorted`: a later rule overwrites an earlier one where both bind a name.
pub open spec fn apply_rules(
    m: Map<Seq<char>, ValueView>,
    sorted: Seq<((int, int, int), int)>,
    rules: Seq<RuleView>,
) -> Map<Seq<char>, ValueView>
    decreases sorted.len(),
{
    if sorted.len() == 0 {
        m
    } else {
        apply_decls(
            apply_rules(m, sorted.drop_last(), rules),
            rules[sorted.last().1].declarations,
        )
    }
}

/// The resolved properties of one element under the stylesheet: the
/// declarations of every matching rule merged in ascending specificity
/// order (source order among equals), and then, when the element carries a
/// `style` attribute, that attribute parsed as a declaration list and
/// merged last, overriding everything.  Fails exactly when the inline
/// `style` attribute fails to parse.
pub open spec fn specified_values_s(e: ElemView, sheet: StyleSheetView) -> Result<
    Map<Seq<char>, ValueView>,
    ParseError,
> {
    let base = apply_rules(
        Map::empty(),
        sort_asc(matched_rules_s(e, sheet.rules, 0, Seq::empty())),
        sheet.rules,
    );
    if e.attributes.contains_key("style"@) {
        match parse_declarations_s(e.attributes["style"@], 0, Seq::empty()) {
            Err(er) => Err(er),
            Ok((ds, _p)) => Ok(apply_decls(base, ds)),
        }
    } else {
        Ok(base)
    }
}

/// Resolves one element's properties, as `specified_values_s` describes.
pub fn specified_values(elem: &ElementData, stylesheet: &StyleSheet) -> (r: Result<
    PropertyMap,
    ParseError,
>)
    ensures
        match r {
            Ok(m) => specified_values_s(elem@, stylesheet@) == Ok::<
                Map<Seq<char>, ValueView>,
                ParseError,
            >(m@),
            Err(e) => specified_values_s(elem@, stylesheet@) == Err::<
                Map<Seq<char>, ValueView>,
                ParseError,
            >(e),
        },
{
    let matched = matching_rules(elem, stylesheet);
    let sorted = sort_matched(matched, Ghost(stylesheet@.rules.len() as int));
    let ghost sortedv = matched_pairs_view(sorted@);
    let mut values = PropertyMap::new();
    let mut k: usize = 0;
    proof {
        assert(sortedv.take(0) =~= Seq::<((int, int, int), int)>::empty());
    }
    loop
        invariant
            k <= sorted.len(),
            sortedv == matched_pairs_view(sorted@),
            forall|q: int| 0 <= q < sorted@.len() ==> ((#[trigger] sorted@[q]).1 as int)
                < stylesheet@.rules.len(),
            values@ == apply_rules(Map::empty(), sortedv.take(k as int), stylesheet@.rules),
        ensures
            values@ == apply_rules(Map::empty(), sortedv, stylesheet@.rules),
        decreases sorted.len() - k,
    {
        if k >= sorted.len() {
            proof {
                assert(sortedv.take(sorted@.len() as int) =~= sortedv);
            }
            break;
        }
        let idx = sorted[k].1;
        let rule = &stylesheet.rules[idx];
        let ghost base = values@;
        let ghost decls = stylesheet@.rules[idx as int].declarations;
        let mut j: usize = 0;
        proof {
            assert(decls.take(0) =~= Seq::<DeclView>::empty());
        }
        loop
            invariant
                j <= rule.declarations.len(),
                decls == rule@.declarations,
                decls == stylesheet@.rules[sorted@[k as int].1 as int].declarations,
                k < sorted@.len(),
                values@ == apply_decls(base, decls.take(j as int)),
            ensures
                values@ == apply_decls(base, decls),
            decreases rule.declarations.len() - j,
        {
            if j >= rule.declarations.len() {
                proof {
                    assert(decls.take(rule.declarations@.len() as int) =~= decls);
                }
                break;
            }
            let d = &rule.declarations[j];
            proof {
                assert(decls.take(j + 1).drop_last() =~= decls.take(j as int));
                assert(decls.take(j + 1).last() == rule.declarations@[j as int]@);
            }
            values.insert(d.name.clone(), d.value.clone());
            j = j + 1;
        }
        proof {
            assert(sortedv.take(k + 1).drop_last() =~= sortedv.take(k as int));
        }
        k = k + 1;
    }
    match elem.attributes.get(&String::from_str("style")) {
        None => Ok(values),
        Some(inline) => {
            let mut parser = crate::css::Parser::new(inline.as_str());
            let decls = match parser.parse_declarations() {
                Ok(ds) => ds,
                Err(e) => {
                    return Err(e);
                },
            };
            let ghost dv = crate::css::decls_view(decls@);
            let ghost base = values@;
            let mut j: usize = 0;
            proof {
                assert(dv.take(0) =~= Seq::<DeclView>::empty());
            }
            loop
                invariant
                    j <= decls.len(),
                    dv == crate::css::decls_view(decls@),
                    values@ == apply_decls(base, dv.take(j as int)),
                ensures
                    values@ == apply_decls(base, dv),
                decreases decls.len() - j,
            {
                if j >= decls.len() {
                    proof {
                        assert(dv.take(decls@.len() as int) =~= dv);
                    }
                    break;
                }
                let d = &decls[j];
                proof {
                    assert(dv.take(j + 1).drop_last() =~= dv.take(j as int));
                    assert(dv.take(j + 1).last() == decls@[j as int]@);
                }
                values.insert(d.name.clone(), d.value.clone());
                j = j + 1;
            }
            Ok(values)
        },
    }
}

// ---------------------------------------------------------------------------
// The styled tree
// ---------------------------------------------------------------------------
/// A node of the styled tree: a borrowed reference to its source node, the
/// resolved properties, and the styled children, mirroring the source
/// node's children in length and order.  A text node's property map is
/// empty.
#[derive(Debug)]
pub struct StyledNode<'a> {
    pub node: &'a Node,
    pub specified_values: PropertyMap,
    pub children: Vec<StyledNode<'a>>,
}

/// The view of a styled node.
pub struct StyledNodeView {
    pub node: NodeView,
    pub specified_values: Map<Seq<char>, ValueView>,
    pub children: Seq<StyledNodeView>,
}

/// The view of a styled node.
pub open spec fn styled_view(sn: StyledNode) -> StyledNodeView
    decreases sn,
{
    StyledNodeView {
        node: node_view(*sn.node),
        specified_values: sn.specified_values@,
        children: styled_children_view(sn.children@),
    }
}

/// The views of a sequence of styled nodes, in order.
pub open spec fn styled_children_view(s: Seq<StyledNode>) -> Seq<StyledNodeView>
    decreases s,
{
    if s.len() == 0 {
        Seq::empty()
    } else {
        styled_children_view(s.drop_last()).push(styled_view(s.last()))
    }
}

impl<'a> View for StyledNode<'a> {
    type V = StyledNodeView;

    open spec fn view(&self) -> StyledNodeView {
        styled_view(*self)
    }
}

/// The styled tree of a node: children resolved first, in order, then the
/// node's own properties — a matched and merged map for an element, the
/// empty map for a text node.  Fails exactly where the first inline
/// `style` attribute in traversal order fails to parse.
pub open spec fn style_tree_s(n: NodeView, sheet: StyleSheetView) -> Result<
    StyledNodeView,
    ParseError,
>
    decreases n, 1int,
{
    match style_children_s(n.children, sheet, Seq::empty()) {
        Err(e) => Err(e),
        Ok(kids) => match n.node_type {
            NodeTypeView::Text(_) => Ok(
                StyledNodeView { node: n, specified_values: Map::empty(), children: kids },
            ),
            NodeTypeView::Element(d) => match specified_values_s(d, sheet) {
                Err(e) => Err(e),
                Ok(m) => Ok(StyledNodeView { node: n, specified_values: m, children: kids }),
            },
        },
    }
}

/// The styled trees of a sequence of nodes, appended to `acc`.
pub open spec fn style_children_s(
    cs: Seq<NodeView>,
    sheet: StyleSheetView,
    acc: Seq<StyledNodeView>,
) -> Result<Seq<StyledNodeView>, ParseError>
    decreases cs, 0int,
{
    if cs.len() == 0 {
        Ok(acc)
    } else {
        match style_tree_s(cs[0], sheet) {
            Err(e) => Err(e),
            Ok(sv) => style_children_s(cs.drop_first(), sheet, acc.push(sv)),
        }
    }
}

/// Builds the styled tree for `root` under `stylesheet`, as `style_tree_s`
/// describes.  The returned tree borrows the source nodes; it never copies
/// them.
pub fn style_tree<'a>(root: &'a Node, stylesheet: &StyleSheet) -> (r: Result<
    StyledNode<'a>,
    ParseError,
>)
    ensures
        match r {
            Ok(sn) => style_tree_s(node_view(*root), stylesheet@) == Ok::<
                StyledNodeView,
                ParseError,
            >(sn@) && sn.node == root,
            Err(e) => style_tree_s(node_view(*root), stylesheet@) == Err::<
                StyledNodeView,
                ParseError,
            >(e),
        },
    decreases *root,
{
    let ghost cs = node_view(*root).children;
    let mut kids: Vec<StyledNode<'a>> = Vec::new();
    let mut i: usize = 0;
    proof {
        crate::dom::lemma_nodes_view_seq(root.children@);
        assert(styled_children_view(kids@) =~= Seq::<StyledNodeView>::empty());
        assert(cs.skip(0) =~= cs);
    }
    loop
        invariant
            i <= root.children.len(),
            cs == node_view(*root).children,
            cs == nodes_view_seq(root.children@),
            cs.len() == root.children@.len(),
            forall|q: int| 0 <= q < root.children@.len() ==> cs[q] == node_view(
                root.children@[q],
            ),
            style_children_s(cs, stylesheet@, Seq::empty()) == style_children_s(
                cs.skip(i as int),
                stylesheet@,
                styled_children_view(kids@),
            ),
        ensures
            style_children_s(cs, stylesheet@, Seq::empty()) == Ok::<
                Seq<StyledNodeView>,
                ParseError,
            >(styled_children_view(kids@)),
        decreases root.children.len() - i,
    {
        if i >= root.children.len() {
            proof {
                assert(cs.skip(root.children@.len() as int) =~= Seq::<NodeView>::empty());
            }
            break;
        }
        let child = &root.children[i];
        proof {
            assert(cs.skip(i as int)[0] == node_view(root.children@[i as int]));
        }
        let styled = match style_tree(child, stylesheet) {
            Ok(s) => s,
            Err(e) => {
                return Err(e);
            },
        };
        proof {
            assert(kids@.push(styled).drop_last() =~= kids@);
            assert(cs.skip(i as int).drop_first() =~= cs.skip(i + 1));
        }
        kids.push(styled);
        i = i + 1;
    }
    let values = match &root.node_type {
        NodeType::Text(_) => PropertyMap::new(),
        NodeType::Element(data) => {
            match specified_values(data, stylesheet) {
                Ok(m) => m,
                Err(e) => {
                    return Err(e);
                },
            }
        },
    };
    let out = StyledNode { node: root, specified_values: values, children: kids };
    proof {
        assert(out@.children == styled_children_view(kids@));
    }
    Ok(out)
}


// ---------------------------------------------------------------------------
// Laws of the cascade
// ---------------------------------------------------------------------------
/// The value the last declaration of `n` in `ds` gives, if any.
pub open spec fn last_decl_named(ds: Seq<DeclView>, n: Seq<char>) -> Option<ValueView>
    decreases ds.len(),
{
    if ds.len() == 0 {
        None
    } else if ds.last().name == n {
        Some(ds.last().value)
    } else {
        last_decl_named(ds.drop_last(), n)
    }
}

/// Merging a declaration list binds each name to its last declared value,
/// and leaves every other name as it was.
pub proof fn lemma_apply_decls_named(m: Map<Seq<char>, ValueView>, ds: Seq<DeclView>, n: Seq<char>)
    ensures
        match last_decl_named(ds, n) {
            Some(v) => apply_decls(m, ds).contains_key(n) && apply_decls(m, ds)[n] == v,
            None => apply_decls(m, ds).contains_key(n) == m.contains_key(n) && (m.contains_key(n)
                ==> apply_decls(m, ds)[n] == m[n]),
        },
    decreases ds.len(),
{
    if ds.len() > 0 {
        lemma_apply_decls_named(m, ds.drop_last(), n);
    }
}

/// Inline styles always win: when an element carries a `style` attribute
/// whose declaration list parses and binds `n` — with `v` its last such
/// binding — the element's resolved properties bind `n` to `v`, whatever
/// the stylesheet holds.
pub proof fn lemma_inline_override(
    e: ElemView,
    sheet: StyleSheetView,
    ds: Seq<DeclView>,
    p: int,
    n: Seq<char>,
    v: ValueView,
)
    requires
        e.attributes.contains_key("style"@),
        parse_declarations_s(e.attributes["style"@], 0, Seq::empty()) == Ok::<
            (Seq<DeclView>, int),
            ParseError,
        >((ds, p)),
        last_decl_named(ds, n) == Some(v),
    ensures
        specified_values_s(e, sheet) is Ok,
        match specified_values_s(e, sheet) {
            Ok(m) => m.contains_key(n) && m[n] == v,
            Err(_) => false,
        },
{
    let base = apply_rules(
        Map::empty(),
        sort_asc(matched_rules_s(e, sheet.rules, 0, Seq::empty())),
        sheet.rules,
    );
    lemma_apply_decls_named(base, ds, n);
}

/// The styled tree mirrors its source tree: a styled node has exactly as
/// many children, in the same order, and a text node's property map is
/// empty.
pub proof fn lemma_styled_mirrors(n: NodeView, sheet: StyleSheetView)
    ensures
        match style_tree_s(n, sheet) {
            Ok(sn) => {
                &&& sn.node == n
                &&& sn.children.len() == n.children.len()
                &&& (n.node_type is Text ==> sn.specified_values == Map::<
                    Seq<char>,
                    ValueView,
                >::empty())
            },
            Err(_) => true,
        },
{
    lemma_style_children_len(n.children, sheet, Seq::empty());
}

/// Styling a child sequence yields one styled child per source child.
pub proof fn lemma_style_children_len(
    cs: Seq<NodeView>,
    sheet: StyleSheetView,
    acc: Seq<StyledNodeView>,
)
    ensures
        match style_children_s(cs, sheet, acc) {
            Ok(out) => out.len() == acc.len() + cs.len(),
            Err(_) => true,
        },
    decreases cs.len(),
{
    if cs.len() > 0 {
        match style_tree_s(cs[0], sheet) {
            Ok(sv) => {
                lemma_style_children_len(cs.drop_first(), sheet, acc.push(sv));
            },
            Err(_) => {},
        }
    }
}


/// Cascade precedence, second rule at least as specific: in a two-rule
/// stylesheet whose rules both match the element, where the second rule's
/// matched specificity is at least the first's and binds `n` — with `v`
/// its last such binding — the element resolves `n` to `v`, whatever the
/// first rule declares.
pub proof fn lemma_higher_specificity_wins(
    e: ElemView,
    sheet: StyleSheetView,
    s1: (int, int, int),
    s2: (int, int, int),
    n: Seq<char>,
    v: ValueView,
)
    requires
        sheet.rules.len() == 2,
        !e.attributes.contains_key("style"@),
        rule_first_match(e, sheet.rules[0].selectors) == Some(s1),
        rule_first_match(e, sheet.rules[1].selectors) == Some(s2),
        specificity_le(s1, s2),
        last_decl_named(sheet.rules[1].declarations, n) == Some(v),
    ensures
        match specified_values_s(e, sheet) {
            Ok(m) => m.contains_key(n) && m[n] == v,
            Err(_) => false,
        },
{
    let sorted = lemma_two_matching_rules_sorted(e, sheet, s1, s2);
    let base0 = apply_decls(Map::empty(), sheet.rules[sorted[0].1].declarations);
    assert(apply_rules(Map::empty(), sorted, sheet.rules) == apply_decls(
        base0,
        sheet.rules[sorted[1].1].declarations,
    )) by {
        reveal_with_fuel(apply_rules, 4);
        assert(sorted.drop_last() =~= seq![sorted[0]]);
        assert(seq![sorted[0]].drop_last() =~= Seq::<((int, int, int), int)>::empty());
        assert(sorted.last() == sorted[1]);
        assert(seq![sorted[0]].last() == sorted[0]);
    }
    if specificity_le(s2, s1) {
        // Equal specificities: the later source rule still merges last.
        assert(sorted[1].1 == 1);
    }
    lemma_apply_decls_named(base0, sheet.rules[sorted[1].1].declarations, n);
}

/// Cascade precedence, first rule strictly more specific: in a two-rule
/// stylesheet whose rules both match the element, where the first rule's
/// matched specificity is strictly above the second's and binds `n` — with
/// `v` its last such binding — the element resolves `n` to `v`, whatever
/// the second rule declares.  With `lemma_higher_specificity_wins` this
/// makes the winner independent of the rules' source order.
pub proof fn lemma_higher_specificity_wins_first(
    e: ElemView,
    sheet: StyleSheetView,
    s1: (int, int, int),
    s2: (int, int, int),
    n: Seq<char>,
    v: ValueView,
)
    requires
        sheet.rules.len() == 2,
        !e.attributes.contains_key("style"@),
        rule_first_match(e, sheet.rules[0].selectors) == Some(s1),
        rule_first_match(e, sheet.rules[1].selectors) == Some(s2),
        !specificity_le(s1, s2),
        last_decl_named(sheet.rules[0].declarations, n) == Some(v),
    ensures
        match specified_values_s(e, sheet) {
            Ok(m) => m.contains_key(n) && m[n] == v,
            Err(_) => false,
        },
{
    let sorted = lemma_two_matching_rules_sorted(e, sheet, s1, s2);
    let base0 = apply_decls(Map::empty(), sheet.rules[sorted[0].1].declarations);
    assert(apply_rules(Map::empty(), sorted, sheet.rules) == apply_decls(
        base0,
        sheet.rules[sorted[1].1].declarations,
    )) by {
        reveal_with_fuel(apply_rules, 4);
        assert(sorted.drop_last() =~= seq![sorted[0]]);
        assert(seq![sorted[0]].drop_last() =~= Seq::<((int, int, int), int)>::empty());
        assert(sorted.last() == sorted[1]);
        assert(seq![sorted[0]].last() == sorted[0]);
    }
    lemma_apply_decls_named(base0, sheet.rules[sorted[1].1].declarations, n);
}

/// In a two-rule stylesheet whose rules both match, the merge order is the
/// two rules sorted ascending by matched specificity, source order breaking
/// the tie.
pub proof fn lemma_two_matching_rules_sorted(
    e: ElemView,
    sheet: StyleSheetView,
    s1: (int, int, int),
    s2: (int, int, int),
) -> (sorted: Seq<((int, int, int), int)>)
    requires
        sheet.rules.len() == 2,
        rule_first_match(e, sheet.rules[0].selectors) == Some(s1),
        rule_first_match(e, sheet.rules[1].selectors) == Some(s2),
    ensures
        sorted == sort_asc(matched_rules_s(e, sheet.rules, 0, Seq::empty())),
        specificity_le(s1, s2) ==> sorted == seq![(s1, 0int), (s2, 1int)],
        !specificity_le(s1, s2) ==> sorted == seq![(s2, 1int), (s1, 0int)],
{
    reveal_with_fuel(matched_rules_s, 4);
    reveal_with_fuel(sort_asc, 3);
    reveal_with_fuel(insert_asc, 3);
    let matched = matched_rules_s(e, sheet.rules, 0, Seq::empty());
    assert(matched == Seq::empty().push((s1, 0int)).push((s2, 1int)));
    let pair = Seq::empty().push((s1, 0int)).push((s2, 1int));
    assert(pair =~= seq![(s1, 0int), (s2, 1int)]);
    assert(pair.drop_last() =~= seq![(s1, 0int)]);
    assert(seq![(s1, 0int)].drop_last() =~= Seq::<((int, int, int), int)>::empty());
    assert(sort_asc(seq![(s1, 0int)]) == insert_asc((s1, 0int), Seq::empty()));
    assert(insert_asc((s1, 0int), Seq::empty()) =~= seq![(s1, 0int)]);
    let sorted = sort_asc(matched);
    assert(sorted == insert_asc((s2, 1int), seq![(s1, 0int)]));
    if specificity_le(s1, s2) {
        assert(seq![(s1, 0int)].drop_first() =~= Seq::<((int, int, int), int)>::empty());
        assert(insert_asc((s2, 1int), seq![(s1, 0int)]) =~= seq![(s1, 0int), (s2, 1int)]);
    } else {
        assert(insert_asc((s2, 1int), seq![(s1, 0int)]) =~= seq![(s2, 1int), (s1, 0int)]);
    }
    sorted
}

} // verus!
