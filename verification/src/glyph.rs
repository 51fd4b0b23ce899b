//! Glyph rules and the catalog they are looked up in.
use vstd::prelude::*;

use crate::stroke::Stroke;
use crate::text::{char_is_control, is_control};

verus! {

/// What a cell renders to: one character, never a control character.
///
/// Equality is by text: nothing here is normalized.
#[derive(Debug, PartialEq, Eq)]
pub struct Glyph {
    text: String,
}

impl View for Glyph {
    type V = char;

    /// The glyph's one character.
    closed spec fn view(&self) -> char {
        self.text@[0]
    }
}

/// Whether `text` is the text of a glyph: exactly one character, and not a control character.
pub open spec fn is_glyph_text(text: Seq<char>) -> bool {
    text.len() == 1 && !is_control(text[0])
}

impl Glyph {
    #[verifier::type_invariant]
    spec fn inv(self) -> bool {
        is_glyph_text(self.text@)
    }

    /// `Some` when `text` is exactly one character that is not a control character, `None`
    /// otherwise.
    pub fn new(text: &str) -> (r: Option<Glyph>)
        ensures
            r is Some <==> is_glyph_text(text@),
            r matches Some(g) ==> g@ == text@[0],
    {
        let chars = crate::text::chars_of(text);
        if chars.len() != 1 || char_is_control(chars[0]) {
            return None;
        }
        let g = Glyph { text: text.to_owned() };
        Some(g)
    }

    /// The glyph for the character `c`, which must not be a control character.
    pub fn from_char(c: char) -> (g: Glyph)
        requires
            !is_control(c),
        ensures
            g@ == c,
    {
        let mut text = String::new();
        crate::text::push_char(&mut text, c);
        assert(text@ =~= seq![c]);
        Glyph { text }
    }

    /// The glyph's text.
    pub fn as_str(&self) -> (s: &str)
        ensures
            s@ == seq![self@],
    {
        proof {
            use_type_invariant(self);
        }
        assert(self.text@ =~= seq![self.text@[0]]);
        self.text.as_str()
    }

    /// The glyph's one character, which is never a control character.
    pub fn to_char(&self) -> (c: char)
        ensures
            c == self@,
            !is_control(c),
    {
        proof {
            use_type_invariant(self);
        }
        let chars = crate::text::chars_of(self.text.as_str());
        chars[0]
    }

    /// The same glyph, as a value of its own.
    pub fn duplicate(&self) -> (g: Glyph)
        ensures
            g == *self,
    {
        proof {
            use_type_invariant(self);
        }
        Glyph { text: self.text.clone() }
    }
}

impl Clone for Glyph {
    fn clone(&self) -> (g: Self)
        ensures
            g == *self,
    {
        self.duplicate()
    }
}

/// A stroke name on one side of a key, as the name's characters.
pub open spec fn side_view(side: Option<Stroke>) -> Option<Seq<char>> {
    match side {
        Some(s) => Some(s@),
        None => None,
    }
}

/// The four sides of a glyph rule: a stroke name on each side, or nothing.
#[derive(Debug, Clone, PartialEq, Eq, Hash)]
pub struct GlyphKey {
    /// The stroke on the top side, or `None` if none runs there.
    pub top: Option<Stroke>,
    /// The stroke on the right side, or `None` if none runs there.
    pub right: Option<Stroke>,
    /// The stroke on the bottom side, or `None` if none runs there.
    pub bottom: Option<Stroke>,
    /// The stroke on the left side, or `None` if none runs there.
    pub left: Option<Stroke>,
}

/// A key as the names on its four sides: top, right, bottom, left.
pub type KeyView = (Option<Seq<char>>, Option<Seq<char>>, Option<Seq<char>>, Option<Seq<char>>);

impl View for GlyphKey {
    type V = KeyView;

    open spec fn view(&self) -> KeyView {
        (side_view(self.top), side_view(self.right), side_view(self.bottom), side_view(self.left))
    }
}

/// Whether two sides of keys name the same stroke, or both name none.
fn same_side(a: &Option<Stroke>, b: &Option<Stroke>) -> (r: bool)
    ensures
        r == (side_view(*a) == side_view(*b)),
{
    match (a, b) {
        (Some(x), Some(y)) => x.same_as(y),
        (None, None) => true,
        _ => false,
    }
}

/// The same side, as a value of its own.
fn side_duplicate(side: &Option<Stroke>) -> (r: Option<Stroke>)
    ensures
        r == *side,
{
    match side {
        Some(s) => Some(s.duplicate()),
        None => None,
    }
}

impl GlyphKey {
    /// The same key, as a value of its own.
    pub fn duplicate(&self) -> (k: GlyphKey)
        ensures
            k == *self,
    {
        GlyphKey {
            top: side_duplicate(&self.top),
            right: side_duplicate(&self.right),
            bottom: side_duplicate(&self.bottom),
            left: side_duplicate(&self.left),
        }
    }

    /// Whether `self` and `other` name the same stroke on every side.
    pub fn same_as(&self, other: &GlyphKey) -> (r: bool)
        ensures
            r == (self@ == other@),
    {
        same_side(&self.top, &other.top) && same_side(&self.right, &other.right) && same_side(
            &self.bottom,
            &other.bottom,
        ) && same_side(&self.left, &other.left)
    }
}

/// The rules of a catalog, each a key and the character it answers, as a map: where two rules
/// share a key the later one is the one kept.
pub open spec fn rules_map(rules: Seq<(KeyView, char)>) -> Map<KeyView, char>
    decreases rules.len(),
{
    if rules.len() == 0 {
        Map::empty()
    } else {
        rules_map(rules.drop_last()).insert(rules.last().0, rules.last().1)
    }
}

/// Every glyph rule in play. Answering a key is one lookup; nothing about a catalog says which
/// set a rule came from.
pub struct GlyphCatalog {
    rules: Vec<(GlyphKey, Glyph)>,
}

/// A rule as its key's view and its character.
pub open spec fn rule_view(rule: (GlyphKey, Glyph)) -> (KeyView, char) {
    (rule.0@, rule.1@)
}

impl View for GlyphCatalog {
    type V = Map<KeyView, char>;

    closed spec fn view(&self) -> Map<KeyView, char> {
        rules_map(self.rules@.map_values(|r: (GlyphKey, Glyph)| rule_view(r)))
    }
}

/// A map from the rules of `rules` up to index `i`, whose key `k` is set by none of the rules
/// from `i` on, answers `k` as all of `rules` does.
proof fn lemma_rules_map_suffix_misses(rules: Seq<(KeyView, char)>, i: int, k: KeyView)
    requires
        0 <= i <= rules.len(),
        forall|j: int| i <= j < rules.len() ==> rules[j].0 != k,
    ensures
        rules_map(rules).contains_key(k) == rules_map(rules.take(i)).contains_key(k),
        rules_map(rules).contains_key(k) ==> rules_map(rules)[k] == rules_map(rules.take(i))[k],
    decreases rules.len() - i,
{
    if i < rules.len() {
        assert(rules.drop_last().take(i) =~= rules.take(i));
        lemma_rules_map_suffix_misses(rules.drop_last(), i, k);
    } else {
        assert(rules.take(i) =~= rules);
    }
}

impl GlyphCatalog {
    /// A catalog holding exactly `rules`; where two share a key, the later one answers it.
    pub fn from_rules(rules: Vec<(GlyphKey, Glyph)>) -> (c: GlyphCatalog)
        ensures
            c@ == rules_map(rules@.map_values(|r: (GlyphKey, Glyph)| rule_view(r))),
    {
        GlyphCatalog { rules }
    }

    /// The rule `key` answers to, or `None` if the catalog has no rule for it.
    pub fn glyph_of(&self, key: &GlyphKey) -> (r: Option<&Glyph>)
        ensures
            r is Some <==> self@.contains_key(key@),
            r matches Some(g) ==> g@ == self@[key@],
    {
        let ghost rules = self.rules@.map_values(|r: (GlyphKey, Glyph)| rule_view(r));
        let mut i = self.rules.len();
        while i > 0
            invariant
                i <= self.rules.len(),
                rules == self.rules@.map_values(|r: (GlyphKey, Glyph)| rule_view(r)),
                forall|j: int| i <= j < rules.len() ==> rules[j].0 != key@,
            decreases i,
        {
            let rule = &self.rules[i - 1];
            if rule.0.same_as(key) {
                proof {
                    let t = rules.take(i as int);
                    lemma_rules_map_suffix_misses(rules, i as int, key@);
                    assert(t.drop_last() =~= rules.take(i - 1));
                    assert(t.last() == rules[i - 1]);
                }
                return Some(&rule.1);
            }
            i -= 1;
        }
        proof {
            lemma_rules_map_suffix_misses(rules, 0, key@);
            assert(rules.take(0) =~= Seq::<(KeyView, char)>::empty());
        }
        None
    }

    /// Returns the character `key` answers to, or `None` if the catalog has no rule for it.
    pub fn glyph(&self, key: &GlyphKey) -> (r: Option<char>)
        ensures
            r is Some <==> self@.contains_key(key@),
            r matches Some(c) ==> c == self@[key@],
    {
        match self.glyph_of(key) {
            Some(g) => Some(g.to_char()),
            None => None,
        }
    }
}

/// Which sides of the `i`th rule of a glyph table hold the table's stroke: top, right, bottom,
/// left. Every table lists the fifteen combinations with at least one side in this order.
pub open spec fn table_sides(i: int) -> (bool, bool, bool, bool) {
    if i == 0 {
        (false, false, true, false)
    } else if i == 1 {
        (false, false, true, true)
    } else if i == 2 {
        (false, true, true, true)
    } else if i == 3 {
        (true, true, true, true)
    } else if i == 4 {
        (true, false, true, true)
    } else if i == 5 {
        (false, true, true, false)
    } else if i == 6 {
        (true, true, true, false)
    } else if i == 7 {
        (true, false, true, false)
    } else if i == 8 {
        (false, false, false, true)
    } else if i == 9 {
        (false, true, false, true)
    } else if i == 10 {
        (true, true, false, true)
    } else if i == 11 {
        (true, false, false, true)
    } else if i == 12 {
        (false, true, false, false)
    } else if i == 13 {
        (true, true, false, false)
    } else {
        (true, false, false, false)
    }
}

/// The place in table order of the rule whose stroke runs on exactly the sides given.
pub open spec fn table_index(top: bool, right: bool, bottom: bool, left: bool) -> int {
    if !top && !right && bottom && !left {
        0
    } else if !top && !right && bottom && left {
        1
    } else if !top && right && bottom && left {
        2
    } else if top && right && bottom && left {
        3
    } else if top && !right && bottom && left {
        4
    } else if !top && right && bottom && !left {
        5
    } else if top && right && bottom && !left {
        6
    } else if top && !right && bottom && !left {
        7
    } else if !top && !right && !bottom && left {
        8
    } else if !top && right && !bottom && left {
        9
    } else if top && right && !bottom && left {
        10
    } else if top && !right && !bottom && left {
        11
    } else if !top && right && !bottom && !left {
        12
    } else if top && right && !bottom && !left {
        13
    } else {
        14
    }
}

/// The sides of the `i`th rule of a glyph table, as [`table_sides`] lists them.
fn sides_at(i: usize) -> (r: (bool, bool, bool, bool))
    requires
        i < 15,
    ensures
        r == table_sides(i as int),
{
    if i == 0 {
        (false, false, true, false)
    } else if i == 1 {
        (false, false, true, true)
    } else if i == 2 {
        (false, true, true, true)
    } else if i == 3 {
        (true, true, true, true)
    } else if i == 4 {
        (true, false, true, true)
    } else if i == 5 {
        (false, true, true, false)
    } else if i == 6 {
        (true, true, true, false)
    } else if i == 7 {
        (true, false, true, false)
    } else if i == 8 {
        (false, false, false, true)
    } else if i == 9 {
        (false, true, false, true)
    } else if i == 10 {
        (true, true, false, true)
    } else if i == 11 {
        (true, false, false, true)
    } else if i == 12 {
        (false, true, false, false)
    } else if i == 13 {
        (true, true, false, false)
    } else {
        (true, false, false, false)
    }
}

/// The stroke named `name` on a side where `present`, and nothing elsewhere.
pub open spec fn side_if(present: bool, name: Seq<char>) -> Option<Seq<char>> {
    if present {
        Some(name)
    } else {
        None
    }
}

/// The key of the `i`th rule of the glyph table for the stroke named `name`.
pub open spec fn table_key(i: int, name: Seq<char>) -> KeyView {
    let (t, r, b, l) = table_sides(i);
    (side_if(t, name), side_if(r, name), side_if(b, name), side_if(l, name))
}

/// The rules of the glyph table for the stroke named `name`: the `i`th key answered by the `i`th
/// of `glyphs`.
pub open spec fn table_rules(name: Seq<char>, glyphs: Seq<char>) -> Seq<(KeyView, char)> {
    Seq::new(15, |i: int| (table_key(i, name), glyphs[i]))
}

/// The characters of the Light table, in table order.
pub open spec fn light_glyphs() -> Seq<char> {
    seq!['│', '┐', '┬', '┼', '┤', '┌', '├', '│', '─', '─', '┴', '┘', '─', '└', '│']
}

/// Whether none of `glyphs` is a control character.
pub open spec fn no_control(glyphs: Seq<char>) -> bool {
    forall|i: int| 0 <= i < glyphs.len() ==> !is_control(#[trigger] glyphs[i])
}

/// A side holding the stroke `name` where `present`, and nothing elsewhere.
fn side_of(present: bool, name: &str) -> (r: Option<Stroke>)
    ensures
        side_view(r) == side_if(present, name@),
{
    if present {
        Some(Stroke::from(name))
    } else {
        None
    }
}

/// Rules of `rules` whose key no other rule shares answer their own character.
proof fn lemma_rules_map_unique(rules: Seq<(KeyView, char)>, i: int)
    requires
        0 <= i < rules.len(),
        forall|j: int| 0 <= j < rules.len() && j != i ==> #[trigger] rules[j].0 != rules[i].0,
    ensures
        rules_map(rules).contains_key(rules[i].0),
        rules_map(rules)[rules[i].0] == rules[i].1,
    decreases rules.len(),
{
    if i < rules.len() - 1 {
        let front = rules.drop_last();
        assert forall|j: int| 0 <= j < front.len() && j != i implies #[trigger] front[j].0
            != front[i].0 by {
            assert(front[j] == rules[j]);
        }
        lemma_rules_map_unique(front, i);
        assert(rules[rules.len() - 1].0 != rules[i].0);
    }
}

/// Stamping the rules of `first` and then those of `then` is stamping `first + then`.
proof fn lemma_rules_map_concat(first: Seq<(KeyView, char)>, then: Seq<(KeyView, char)>)
    ensures
        rules_map(first + then) == rules_map(first).union_prefer_right(rules_map(then)),
    decreases then.len(),
{
    if then.len() == 0 {
        assert(first + then =~= first);
        assert(rules_map(first).union_prefer_right(rules_map(then)) =~= rules_map(first));
    } else {
        assert((first + then).drop_last() =~= first + then.drop_last());
        lemma_rules_map_concat(first, then.drop_last());
        assert(rules_map(first + then) =~= rules_map(first).union_prefer_right(rules_map(then)));
    }
}

/// The catalogs `ms` united, a later one answering a key two share.
pub open spec fn union_all(ms: Seq<Map<KeyView, char>>) -> Map<KeyView, char>
    decreases ms.len(),
{
    if ms.len() == 0 {
        Map::empty()
    } else {
        union_all(ms.drop_last()).union_prefer_right(ms.last())
    }
}

impl GlyphCatalog {
    /// The glyph table for the stroke named `name`: its rules in table order, the `i`th drawing
    /// the `i`th of `glyphs`.
    pub fn table(name: &str, glyphs: Vec<char>) -> (c: GlyphCatalog)
        requires
            glyphs@.len() == 15,
            no_control(glyphs@),
        ensures
            c@ == rules_map(table_rules(name@, glyphs@)),
    {
        let mut rules: Vec<(GlyphKey, Glyph)> = Vec::new();
        let mut i: usize = 0;
        while i < 15
            invariant
                i <= 15,
                glyphs@.len() == 15,
                no_control(glyphs@),
                rules@.len() == i,
                forall|j: int| 0 <= j < i ==> #[trigger] rule_view(rules@[j]) == table_rules(name@, glyphs@)[j],
            decreases 15 - i,
        {
            let (t, r, b, l) = sides_at(i);
            let key = GlyphKey {
                top: side_of(t, name),
                right: side_of(r, name),
                bottom: side_of(b, name),
                left: side_of(l, name),
            };
            assert(!is_control(glyphs@[i as int]));
            let glyph = Glyph::from_char(glyphs[i]);
            rules.push((key, glyph));
            i += 1;
        }
        assert(rules@.map_values(|r: (GlyphKey, Glyph)| rule_view(r)) =~= table_rules(name@, glyphs@));
        GlyphCatalog::from_rules(rules)
    }

    /// Builds a catalog from the Light table alone.
    pub fn light() -> (c: GlyphCatalog)
        ensures
            c@ == rules_map(table_rules("light"@, light_glyphs())),
    {
        let glyphs = vec!['│', '┐', '┬', '┼', '┤', '┌', '├', '│', '─', '─', '┴', '┘', '─', '└', '│'];
        assert(glyphs@ =~= light_glyphs());
        GlyphCatalog::table("light", glyphs)
    }

    /// One catalog holding the rules of every catalog of `catalogs`; where two answer one key,
    /// the later catalog's rule is the one kept.
    pub fn union(catalogs: Vec<GlyphCatalog>) -> (c: GlyphCatalog)
        ensures
            c@ == union_all(catalogs@.map_values(|g: GlyphCatalog| g@)),
    {
        let mut rules: Vec<(GlyphKey, Glyph)> = Vec::new();
        let mut i: usize = 0;
        while i < catalogs.len()
            invariant
                i <= catalogs@.len(),
                rules_map(rules@.map_values(|r: (GlyphKey, Glyph)| rule_view(r))) == union_all(
                    catalogs@.map_values(|g: GlyphCatalog| g@).take(i as int),
                ),
            decreases catalogs@.len() - i,
        {
            let ghost before = rules@.map_values(|r: (GlyphKey, Glyph)| rule_view(r));
            let part = &catalogs[i].rules;
            let mut j: usize = 0;
            while j < part.len()
                invariant
                    j <= part@.len(),
                    rules@.map_values(|r: (GlyphKey, Glyph)| rule_view(r)) == before + part@.map_values(
                        |r: (GlyphKey, Glyph)| rule_view(r),
                    ).take(j as int),
                decreases part@.len() - j,
            {
                let key = part[j].0.duplicate();
                let glyph = part[j].1.duplicate();
                let ghost old_rules = rules@;
                rules.push((key, glyph));
                assert(rules@.map_values(|r: (GlyphKey, Glyph)| rule_view(r)) =~= old_rules.map_values(
                    |r: (GlyphKey, Glyph)| rule_view(r),
                ).push(rule_view(part@[j as int])));
                assert(part@.map_values(|r: (GlyphKey, Glyph)| rule_view(r)).take(j + 1)
                    =~= part@.map_values(|r: (GlyphKey, Glyph)| rule_view(r)).take(j as int).push(
                    rule_view(part@[j as int]),
                ));
                j += 1;
            }
            proof {
                let pv = part@.map_values(|r: (GlyphKey, Glyph)| rule_view(r));
                assert(pv.take(j as int) =~= pv);
                lemma_rules_map_concat(before, pv);
                let ms = catalogs@.map_values(|g: GlyphCatalog| g@);
                assert(ms.take(i + 1).drop_last() =~= ms.take(i as int));
            }
            i += 1;
        }
        proof {
            let ms = catalogs@.map_values(|g: GlyphCatalog| g@);
            assert(ms.take(i as int) =~= ms);
        }
        GlyphCatalog::from_rules(rules)
    }
}

/// A glyph table answers every key a cell of its own stroke can produce: every combination of
/// sides with at least one side holding the stroke, each with the character its row gives.
pub proof fn law_table_answers_its_own_stroke(
    name: Seq<char>,
    glyphs: Seq<char>,
    top: bool,
    right: bool,
    bottom: bool,
    left: bool,
)
    requires
        glyphs.len() == 15,
        top || right || bottom || left,
    ensures
        rules_map(table_rules(name, glyphs)).contains_key(
            (side_if(top, name), side_if(right, name), side_if(bottom, name), side_if(left, name)),
        ),
        rules_map(table_rules(name, glyphs))[(
            side_if(top, name),
            side_if(right, name),
            side_if(bottom, name),
            side_if(left, name),
        )] == glyphs[table_index(top, right, bottom, left)],
{
    let rules = table_rules(name, glyphs);
    let i = table_index(top, right, bottom, left);
    assert(table_key(i, name) == (
        side_if(top, name),
        side_if(right, name),
        side_if(bottom, name),
        side_if(left, name),
    ));
    assert forall|j: int| 0 <= j < rules.len() && j != i implies #[trigger] rules[j].0 != rules[i].0 by {
        assert(table_sides(j) != table_sides(i));
        if rules[j].0 == rules[i].0 {
            assert(side_if(table_sides(j).0, name) == side_if(table_sides(i).0, name));
            assert(side_if(table_sides(j).1, name) == side_if(table_sides(i).1, name));
            assert(side_if(table_sides(j).2, name) == side_if(table_sides(i).2, name));
            assert(side_if(table_sides(j).3, name) == side_if(table_sides(i).3, name));
        }
    }
    lemma_rules_map_unique(rules, i);
}

} // verus!
