//! The attribute model: typed attribute values, a deterministic keyed
//! collection, merge policies, and the serialized attribute string.
//!
//! The collection keeps its entries sorted by key at all times, so that
//! serialization is decided by the key-value mapping alone and never by
//! the order in which attributes were added.

use core::marker::PhantomData;
use vstd::prelude::*;

use crate::rules::Rules;
use crate::trust::{escape_seq, push_char, str_eq, AttrKey, AttrValue, SafeString};

verus! {

/// Strict lexicographic order on texts, by character code.
pub open spec fn lex_lt(a: Seq<char>, b: Seq<char>) -> bool
    decreases a.len(),
{
    if b.len() == 0 {
        false
    } else if a.len() == 0 {
        true
    } else if (a[0] as u32) < (b[0] as u32) {
        true
    } else if a[0] == b[0] {
        lex_lt(a.drop_first(), b.drop_first())
    } else {
        false
    }
}

/// Of two texts, one is smaller or they are equal.
pub proof fn lemma_lex_lt_total(a: Seq<char>, b: Seq<char>)
    ensures
        lex_lt(a, b) || lex_lt(b, a) || a == b,
    decreases a.len(),
{
    if a.len() == 0 && b.len() == 0 {
        assert(a =~= b);
    } else if a.len() != 0 && b.len() != 0 {
        if a[0] == b[0] {
            lemma_lex_lt_total(a.drop_first(), b.drop_first());
            if a.drop_first() == b.drop_first() {
                assert(a.drop_first().len() == a.len() - 1);
                assert(b.drop_first().len() == b.len() - 1);
                assert(a.len() == b.len());
                assert forall|i: int| 0 <= i < a.len() implies a[i] == b[i] by {
                    if i > 0 {
                        assert(a[i] == a.drop_first()[i - 1]);
                        assert(b[i] == b.drop_first()[i - 1]);
                    }
                }
                assert(a =~= b);
            }
        } else {
            vstd::utf8::char_u32_cast(a[0], a[0] as u32);
            vstd::utf8::char_u32_cast(b[0], b[0] as u32);
            assert((a[0] as u32) != (b[0] as u32));
        }
    }
}

/// The order is irreflexive and asymmetric.
pub proof fn lemma_lex_lt_asym(a: Seq<char>, b: Seq<char>)
    ensures
        !(lex_lt(a, b) && lex_lt(b, a)),
        !lex_lt(a, a),
    decreases a.len(),
{
    if a.len() != 0 && b.len() != 0 {
        lemma_lex_lt_asym(a.drop_first(), b.drop_first());
    }
    if a.len() != 0 {
        lemma_lex_lt_asym(a.drop_first(), a.drop_first());
    }
}

/// The order is transitive.
pub proof fn lemma_lex_lt_trans(a: Seq<char>, b: Seq<char>, c: Seq<char>)
    requires
        lex_lt(a, b),
        lex_lt(b, c),
    ensures
        lex_lt(a, c),
    decreases a.len(),
{
    if a.len() != 0 && b.len() != 0 && c.len() != 0 {
        if a[0] == b[0] && b[0] == c[0] {
            lemma_lex_lt_trans(a.drop_first(), b.drop_first(), c.drop_first());
        }
    }
}

/// Compare two texts in lexicographic order.
pub(crate) fn lex_lt_exec(a: &str, b: &str) -> (r: bool)
    ensures
        r == lex_lt(a@, b@),
{
    let an = a.unicode_len();
    let bn = b.unicode_len();
    proof {
        assert(a@.skip(0) =~= a@);
        assert(b@.skip(0) =~= b@);
    }
    let mut i: usize = 0;
    while i < an && i < bn
        invariant
            an == a@.len(),
            bn == b@.len(),
            i <= an,
            i <= bn,
            lex_lt(a@, b@) == lex_lt(a@.skip(i as int), b@.skip(i as int)),
        decreases an - i,
    {
        let ca = a.get_char(i);
        let cb = b.get_char(i);
        proof {
            assert(a@.skip(i as int)[0] == ca);
            assert(b@.skip(i as int)[0] == cb);
            assert(a@.skip(i as int).drop_first() =~= a@.skip(i + 1));
            assert(b@.skip(i as int).drop_first() =~= b@.skip(i + 1));
        }
        if (ca as u32) < (cb as u32) {
            return true;
        }
        if (ca as u32) > (cb as u32) {
            return false;
        }
        proof {
            vstd::utf8::char_u32_cast(ca, ca as u32);
            vstd::utf8::char_u32_cast(cb, cb as u32);
            assert(ca == cb);
        }
        i = i + 1;
    }
    proof {
        if i == an && i == bn {
            assert(a@.skip(i as int).len() == 0 && b@.skip(i as int).len() == 0);
        } else if i == an {
            assert(a@.skip(i as int).len() == 0 && b@.skip(i as int).len() > 0);
        } else {
            assert(b@.skip(i as int).len() == 0);
        }
    }
    an < bn
}

/// A sequence of texts in strictly ascending lexicographic order.
pub open spec fn strictly_sorted(s: Seq<Seq<char>>) -> bool {
    forall|i: int, j: int| 0 <= i < j < s.len() ==> lex_lt(#[trigger] s[i], #[trigger] s[j])
}

/// A deduplicated set of attribute values, kept sorted by its text.
pub struct AttrValueSet {
    items: Vec<AttrValue>,
}

impl View for AttrValueSet {
    type V = Seq<Seq<char>>;

    closed spec fn view(&self) -> Seq<Seq<char>> {
        self.items@.map_values(|v: AttrValue| v@)
    }
}

impl AttrValueSet {
    pub open spec fn wf(&self) -> bool {
        strictly_sorted(self@)
    }

    pub fn empty() -> (r: Self)
        ensures
            r.wf(),
            r@ == Seq::<Seq<char>>::empty(),
    {
        let r = AttrValueSet { items: Vec::new() };
        proof {
            assert(r@ =~= Seq::<Seq<char>>::empty());
        }
        r
    }

    /// Add one value; the set stays sorted and gains at most that value.
    pub fn insert(self, v: AttrValue) -> (r: Self)
        requires
            self.wf(),
        ensures
            r.wf(),
            r@.to_set() == self@.to_set().insert(v@),
    {
        broadcast use vstd::seq_lib::group_seq_properties;

        let i = value_lower_bound(&self.items, &v);
        if i < self.items.len() {
            if str_eq(self.items[i].as_str(), v.as_str()) {
                proof {
                    assert(self@[i as int] == v@);
                    assert(self@.contains(v@));
                    assert(self@.to_set() =~= self@.to_set().insert(v@));
                }
                return self;
            }
        }
        let ghost old_view = self@;
        let ghost pos = i as int;
        let mut items = self.items;
        items.insert(i, v);
        let r = AttrValueSet { items };
        proof {
            assert(r@ =~= old_view.insert(pos, v@));
            if pos < old_view.len() {
                lemma_lex_lt_total(old_view[pos], v@);
                assert(lex_lt(v@, old_view[pos]));
            }
            assert forall|x: int, y: int| 0 <= x < y < r@.len() implies lex_lt(
                #[trigger] r@[x],
                #[trigger] r@[y],
            ) by {
                if x < pos && y == pos {
                } else if x == pos && y > pos {
                    assert(r@[y] == old_view[y - 1]);
                    if y - 1 > pos {
                        lemma_lex_lt_trans(v@, old_view[pos], old_view[y - 1]);
                    }
                } else if x < pos && y > pos {
                    assert(r@[x] == old_view[x] && r@[y] == old_view[y - 1]);
                    if y - 1 == pos {
                        lemma_lex_lt_trans(old_view[x], v@, old_view[pos]);
                    }
                }
            }
            lemma_seq_insert_to_set(old_view, pos, v@);
        }
        r
    }
}

/// The position before which every stored value is smaller than `v`.
fn value_lower_bound(items: &Vec<AttrValue>, v: &AttrValue) -> (i: usize)
    requires
        strictly_sorted(items@.map_values(|x: AttrValue| x@)),
    ensures
        i <= items@.len(),
        forall|j: int| 0 <= j < i ==> lex_lt(#[trigger] items@[j]@, v@),
        i < items@.len() ==> !lex_lt(items@[i as int]@, v@),
{
    let n = items.len();
    let mut i: usize = 0;
    while i < n
        invariant
            n == items@.len(),
            i <= n,
            forall|j: int| 0 <= j < i ==> lex_lt(#[trigger] items@[j]@, v@),
        decreases n - i,
    {
        if !lex_lt_exec(items[i].as_str(), v.as_str()) {
            return i;
        }
        i = i + 1;
    }
    n
}

impl Clone for AttrValueSet {
    fn clone(&self) -> (r: Self)
        ensures
            r@ == self@,
    {
        let r = AttrValueSet { items: clone_attr_values(&self.items) };
        proof {
            assert(r@ =~= self@);
        }
        r
    }
}

/// Copy a vector of attribute values one by one.
fn clone_attr_values(v: &Vec<AttrValue>) -> (r: Vec<AttrValue>)
    ensures
        r@ == v@,
{
    let n = v.len();
    let mut out: Vec<AttrValue> = Vec::new();
    let mut i: usize = 0;
    while i < n
        invariant
            n == v@.len(),
            i <= n,
            out@ == v@.take(i as int),
        decreases n - i,
    {
        out.push(v[i].clone());
        proof {
            assert(out@ =~= v@.take(i + 1));
        }
        i = i + 1;
    }
    proof {
        assert(v@.take(n as int) =~= v@);
    }
    out
}

/// The shapes an attribute's value can take.
pub enum AttrValues {
    /// A single token, emitted as `key="value"`.
    Token(AttrValue),
    /// A boolean flag, emitted as the bare key when true and not at all
    /// when false.
    Bool(bool),
    /// A deduplicated set of tokens, emitted sorted and joined by single
    /// spaces.
    TokenSet(AttrValueSet),
    /// An ordered list of tokens; reserved, emitted as nothing.
    List(Vec<AttrValue>),
}

/// The mathematical shape of an attribute value.
pub enum AttrValuesModel {
    Token(Seq<char>),
    Bool(bool),
    TokenSet(Seq<Seq<char>>),
    List(Seq<Seq<char>>),
}

impl View for AttrValues {
    type V = AttrValuesModel;

    open spec fn view(&self) -> AttrValuesModel {
        match self {
            AttrValues::Token(v) => AttrValuesModel::Token(v@),
            AttrValues::Bool(b) => AttrValuesModel::Bool(*b),
            AttrValues::TokenSet(s) => AttrValuesModel::TokenSet(s@),
            AttrValues::List(l) => AttrValuesModel::List(l@.map_values(|x: AttrValue| x@)),
        }
    }
}

/// An attribute value is well formed when a set it holds is sorted.
pub open spec fn val_wf(v: AttrValuesModel) -> bool {
    match v {
        AttrValuesModel::TokenSet(s) => strictly_sorted(s),
        _ => true,
    }
}

impl Clone for AttrValues {
    fn clone(&self) -> (r: Self)
        ensures
            r@ == self@,
    {
        match self {
            AttrValues::Token(v) => AttrValues::Token(v.clone()),
            AttrValues::Bool(b) => AttrValues::Bool(*b),
            AttrValues::TokenSet(s) => AttrValues::TokenSet(s.clone()),
            AttrValues::List(l) => AttrValues::List(clone_attr_values(l)),
        }
    }
}

impl AttrValues {
    /// Escape each listed text under the ruleset and collect the results
    /// as a deduplicated set.
    pub fn build_set<T: Rules>(list: Vec<String>, rule: &T) -> (r: AttrValueSet)
        requires
            rule.apply_req(),
        ensures
            r.wf(),
            r@.to_set() == list@.map_values(
                |s: String| escape_seq(rule.apply_spec(s@)),
            ).to_set(),
    {
        broadcast use vstd::seq_lib::group_seq_properties;

        let ghost f = |s: String| escape_seq(rule.apply_spec(s@));
        let n = list.len();
        let mut acc = AttrValueSet::empty();
        proof {
            assert(acc@.to_set() =~= list@.take(0).map_values(f).to_set());
        }
        let mut i: usize = 0;
        while i < n
            invariant
                n == list@.len(),
                i <= n,
                rule.apply_req(),
                f == (|s: String| escape_seq(rule.apply_spec(s@))),
                acc.wf(),
                acc@.to_set() == list@.take(i as int).map_values(f).to_set(),
            decreases n - i,
        {
            let v = AttrValue::from_str(list[i].as_str(), rule);
            acc = acc.insert(v);
            proof {
                assert(list@.take(i + 1) =~= list@.take(i as int).push(list@[i as int]));
                list@.take(i as int).lemma_push_map_commute(f, list@[i as int]);
                list@.take(i as int).map_values(f).lemma_push_to_set_commute(f(list@[i as int]));
            }
            i = i + 1;
        }
        proof {
            assert(list@.take(n as int) =~= list@);
        }
        acc
    }
}

/// How a merge resolves a key present on both sides.
#[derive(Clone, Copy)]
pub enum MergeMode {
    /// The existing value wins.
    Keep,
    /// The incoming value wins.
    Force,
}

/// Entries are well formed when their keys ascend strictly and every
/// value is well formed.
pub open spec fn entries_wf(e: Seq<(Seq<char>, AttrValuesModel)>) -> bool {
    &&& forall|i: int, j: int|
        0 <= i < j < e.len() ==> lex_lt((#[trigger] e[i]).0, (#[trigger] e[j]).0)
    &&& forall|i: int| 0 <= i < e.len() ==> val_wf((#[trigger] e[i]).1)
}

/// Strictly ascending keys are pairwise distinct.
proof fn lemma_sorted_keys_distinct(e: Seq<(Seq<char>, AttrValuesModel)>)
    requires
        forall|i: int, j: int|
            0 <= i < j < e.len() ==> lex_lt((#[trigger] e[i]).0, (#[trigger] e[j]).0),
    ensures
        forall|i: int, j: int|
            0 <= i < j < e.len() ==> (#[trigger] e[i]).0 != (#[trigger] e[j]).0,
{
    assert forall|i: int, j: int| 0 <= i < j < e.len() implies (#[trigger] e[i]).0 != (
    #[trigger] e[j]).0 by {
        lemma_lex_lt_asym(e[i].0, e[j].0);
    }
}

/// Inserting a pair whose key is fresh inserts exactly that binding into
/// the mapping, wherever the pair is placed.
proof fn lemma_map_of_pairs_insert<K, V>(s: Seq<(K, V)>, i: int, p: (K, V))
    requires
        0 <= i <= s.len(),
        forall|j: int| 0 <= j < s.len() ==> (#[trigger] s[j]).0 != p.0,
    ensures
        crate::rules::map_of_pairs(s.insert(i, p)) == crate::rules::map_of_pairs(s).insert(
            p.0,
            p.1,
        ),
    decreases s.len(),
{
    let t = s.insert(i, p);
    if i == s.len() {
        assert(t.drop_last() =~= s);
        assert(t.last() == p);
    } else {
        assert(t.last() == s.last());
        assert(t.drop_last() =~= s.drop_last().insert(i, p));
        assert(forall|j: int|
            0 <= j < s.drop_last().len() ==> (#[trigger] s.drop_last()[j]).0 != p.0);
        lemma_map_of_pairs_insert(s.drop_last(), i, p);
        assert(s[s.len() - 1].0 != p.0);
        assert(crate::rules::map_of_pairs(s.drop_last()).insert(p.0, p.1).insert(
            s.last().0,
            s.last().1,
        ) =~= crate::rules::map_of_pairs(s.drop_last()).insert(s.last().0, s.last().1).insert(
            p.0,
            p.1,
        ));
    }
}

/// The keyed attribute collection. Entries stay sorted by key, so two
/// collections holding the same mapping are identical.
pub struct AttrHashMap {
    table: Vec<(AttrKey, AttrValues)>,
}

impl AttrHashMap {
    /// The entries in stored (ascending key) order.
    pub closed spec fn entries(&self) -> Seq<(Seq<char>, AttrValuesModel)> {
        self.table@.map_values(|p: (AttrKey, AttrValues)| (p.0@, p.1@))
    }

    pub open spec fn wf(&self) -> bool {
        entries_wf(self.entries())
    }
}

impl View for AttrHashMap {
    type V = Map<Seq<char>, AttrValuesModel>;

    open spec fn view(&self) -> Map<Seq<char>, AttrValuesModel> {
        crate::rules::map_of_pairs(self.entries())
    }
}

/// The position before which every stored key is smaller than `k`.
fn key_lower_bound(table: &Vec<(AttrKey, AttrValues)>, k: &AttrKey) -> (i: usize)
    ensures
        i <= table@.len(),
        forall|j: int| 0 <= j < i ==> lex_lt((#[trigger] table@[j]).0@, k@),
        i < table@.len() ==> !lex_lt(table@[i as int].0@, k@),
{
    let n = table.len();
    let mut i: usize = 0;
    while i < n
        invariant
            n == table@.len(),
            i <= n,
            forall|j: int| 0 <= j < i ==> lex_lt((#[trigger] table@[j]).0@, k@),
        decreases n - i,
    {
        if !lex_lt_exec(table[i].0.as_str(), k.as_str()) {
            return i;
        }
        i = i + 1;
    }
    n
}

impl AttrHashMap {
    pub fn new() -> (r: Self)
        ensures
            r.wf(),
            r@ == Map::<Seq<char>, AttrValuesModel>::empty(),
            r.entries() == Seq::<(Seq<char>, AttrValuesModel)>::empty(),
    {
        let r = AttrHashMap { table: Vec::new() };
        proof {
            assert(r.entries() =~= Seq::<(Seq<char>, AttrValuesModel)>::empty());
        }
        r
    }

    /// Bind a key to a value; a key already present is overwritten
    /// unconditionally.
    pub fn add(self, k: AttrKey, v: AttrValues) -> (r: Self)
        requires
            self.wf(),
            val_wf(v@),
        ensures
            r.wf(),
            r@ == self@.insert(k@, v@),
    {
        let ghost old_entries = self.entries();
        let i = key_lower_bound(&self.table, &k);
        let ghost pos = i as int;
        let mut table = self.table;
        if i < table.len() {
            if str_eq(table[i].0.as_str(), k.as_str()) {
                table.set(i, (k, v));
                let r = AttrHashMap { table };
                proof {
                    assert(r.entries() =~= old_entries.update(
                        pos,
                        (old_entries[pos].0, r.entries()[pos].1),
                    ));
                    lemma_sorted_keys_distinct(old_entries);
                    crate::rules::lemma_map_of_pairs_update(
                        old_entries,
                        r.entries(),
                        pos,
                        r.entries()[pos].1,
                    );
                    assert forall|x: int, y: int|
                        0 <= x < y < r.entries().len() implies lex_lt(
                        (#[trigger] r.entries()[x]).0,
                        (#[trigger] r.entries()[y]).0,
                    ) by {
                        assert(r.entries()[x].0 == old_entries[x].0);
                        assert(r.entries()[y].0 == old_entries[y].0);
                    }
                }
                return r;
            }
        }
        table.insert(i, (k, v));
        let r = AttrHashMap { table };
        proof {
            assert(r.entries() =~= old_entries.insert(pos, (k@, v@)));
            if pos < old_entries.len() {
                lemma_lex_lt_total(old_entries[pos].0, k@);
                assert(lex_lt(k@, old_entries[pos].0));
            }
            assert forall|x: int, y: int| 0 <= x < y < r.entries().len() implies lex_lt(
                (#[trigger] r.entries()[x]).0,
                (#[trigger] r.entries()[y]).0,
            ) by {
                if x < pos && y == pos {
                } else if x == pos && y > pos {
                    assert(r.entries()[y] == old_entries[y - 1]);
                    if y - 1 > pos {
                        lemma_lex_lt_trans(k@, old_entries[pos].0, old_entries[y - 1].0);
                    }
                } else if x < pos && y > pos {
                    assert(r.entries()[x] == old_entries[x] && r.entries()[y] == old_entries[y
                        - 1]);
                    if y - 1 == pos {
                        lemma_lex_lt_trans(old_entries[x].0, k@, old_entries[pos].0);
                    }
                }
            }
            assert forall|j: int| 0 <= j < old_entries.len() implies (
            #[trigger] old_entries[j]).0 != k@ by {
                if j < pos {
                    lemma_lex_lt_asym(old_entries[j].0, k@);
                } else {
                    if old_entries[j].0 == k@ {
                        if j == pos {
                            lemma_lex_lt_total(old_entries[pos].0, k@);
                        } else {
                            assert(lex_lt(old_entries[pos].0, old_entries[j].0));
                            lemma_lex_lt_total(old_entries[pos].0, k@);
                            lemma_lex_lt_asym(k@, old_entries[j].0);
                        }
                    }
                }
            }
            lemma_map_of_pairs_insert(old_entries, pos, (k@, v@));
        }
        r
    }

    pub fn contains_key(&self, k: &AttrKey) -> (r: bool)
        requires
            self.wf(),
        ensures
            r == self@.dom().contains(k@),
    {
        match self.get(k) {
            Some(_) => true,
            None => false,
        }
    }

    pub fn get<'a>(&'a self, k: &AttrKey) -> (r: Option<&'a AttrValues>)
        requires
            self.wf(),
        ensures
            match r {
                Some(v) => self@.dom().contains(k@) && v@ == self@[k@],
                None => !self@.dom().contains(k@),
            },
    {
        let n = self.table.len();
        let mut i: usize = 0;
        while i < n
            invariant
                n == self.table@.len(),
                i <= n,
                self.wf(),
                forall|j: int| 0 <= j < i ==> (#[trigger] self.table@[j]).0@ != k@,
            decreases n - i,
        {
            if str_eq(self.table[i].0.as_str(), k.as_str()) {
                proof {
                    lemma_sorted_keys_distinct(self.entries());
                    crate::rules::lemma_map_of_pairs_index(self.entries(), i as int);
                }
                return Some(&self.table[i].1);
            }
            i = i + 1;
        }
        proof {
            crate::rules::lemma_map_of_pairs_dom(self.entries());
            assert forall|j: int| 0 <= j < self.entries().len() implies (
            #[trigger] self.entries()[j]).0 != k@ by {
                assert(self.entries()[j].0 == self.table@[j].0@);
            }
        }
        None
    }

    /// Every entry, key and value copied, in stored order.
    pub fn all(&self) -> (r: Vec<(AttrKey, AttrValues)>)
        ensures
            r@.map_values(|p: (AttrKey, AttrValues)| (p.0@, p.1@)) == self.entries(),
    {
        let n = self.table.len();
        let mut out: Vec<(AttrKey, AttrValues)> = Vec::new();
        let mut i: usize = 0;
        while i < n
            invariant
                n == self.table@.len(),
                i <= n,
                out@.len() == i,
                forall|j: int|
                    0 <= j < i ==> (#[trigger] out@[j]).0@ == self.table@[j].0@ && out@[j].1@
                        == self.table@[j].1@,
            decreases n - i,
        {
            let k = self.table[i].0.clone();
            let v = self.table[i].1.clone();
            out.push((k, v));
            i = i + 1;
        }
        proof {
            assert(out@.map_values(|p: (AttrKey, AttrValues)| (p.0@, p.1@)) =~= self.entries());
        }
        out
    }
}

/// Texts joined by single spaces, in the order given.
pub open spec fn join_space(items: Seq<Seq<char>>) -> Seq<char>
    decreases items.len(),
{
    if items.len() == 0 {
        Seq::empty()
    } else if items.len() == 1 {
        items[0]
    } else {
        join_space(items.drop_last()) + seq![' '] + items.last()
    }
}

/// What one attribute entry contributes to the serialized string: a
/// leading space and `key="value"` for a token, the bare key for a true
/// flag, the sorted members joined by spaces for a non-empty set, and
/// nothing for a false flag, an empty set, or a list.
pub open spec fn attr_entry_str(k: Seq<char>, v: AttrValuesModel) -> Seq<char> {
    match v {
        AttrValuesModel::Token(t) => seq![' '] + k + seq!['=', '"'] + t + seq!['"'],
        AttrValuesModel::Bool(b) => if b {
            seq![' '] + k
        } else {
            Seq::empty()
        },
        AttrValuesModel::TokenSet(items) => if items.len() == 0 {
            Seq::empty()
        } else {
            seq![' '] + k + seq!['=', '"'] + join_space(items) + seq!['"']
        },
        AttrValuesModel::List(_) => Seq::empty(),
    }
}

/// The serialized form of a sequence of entries, in the order given.
pub open spec fn spec_serialize(e: Seq<(Seq<char>, AttrValuesModel)>) -> Seq<char>
    decreases e.len(),
{
    if e.len() == 0 {
        Seq::empty()
    } else {
        spec_serialize(e.drop_last()) + attr_entry_str(e.last().0, e.last().1)
    }
}

/// The members of a set joined by single spaces.
fn join_values(set: &AttrValueSet) -> (r: String)
    ensures
        r@ == join_space(set@),
{
    let n = set.items.len();
    let mut out = String::new();
    let mut t: usize = 0;
    while t < n
        invariant
            n == set.items@.len(),
            t <= n,
            out@ == join_space(set@.take(t as int)),
        decreases n - t,
    {
        let ghost prev = out@;
        if t > 0 {
            push_char(&mut out, ' ');
        }
        out.append(set.items[t].as_str());
        proof {
            assert(set@.take(t + 1).drop_last() =~= set@.take(t as int));
            assert(set@.take(t + 1).last() == set@[t as int]);
            if t == 0 {
                assert(out@ =~= set@[0]);
                assert(join_space(set@.take(1)) == set@.take(1)[0]);
            } else {
                assert(out@ =~= (prev + seq![' ']) + set@[t as int]);
                assert(join_space(set@.take(t + 1)) == (join_space(set@.take(t as int)) + seq![' '])
                    + set@.take(t + 1).last());
            }
        }
        t = t + 1;
    }
    proof {
        assert(set@.take(n as int) =~= set@);
    }
    out
}

impl AttrHashMap {
    /// Serialize the collection: each entry's contribution in ascending
    /// key order.
    pub fn into_string(&self) -> (r: String)
        ensures
            r@ == spec_serialize(self.entries()),
    {
        let n = self.table.len();
        let mut out = String::new();
        proof {
            assert(self.entries().take(0) =~= Seq::<(Seq<char>, AttrValuesModel)>::empty());
        }
        let mut i: usize = 0;
        while i < n
            invariant
                n == self.table@.len(),
                i <= n,
                out@ == spec_serialize(self.entries().take(i as int)),
            decreases n - i,
        {
            let ghost prev = out@;
            let ghost entry = self.entries()[i as int];
            match &self.table[i].1 {
                AttrValues::Token(val) => {
                    push_char(&mut out, ' ');
                    out.append(self.table[i].0.as_str());
                    push_char(&mut out, '=');
                    push_char(&mut out, '"');
                    out.append(val.as_str());
                    push_char(&mut out, '"');
                    proof {
                        assert(out@ =~= prev + attr_entry_str(entry.0, entry.1));
                    }
                },
                AttrValues::Bool(b) => {
                    if *b {
                        push_char(&mut out, ' ');
                        out.append(self.table[i].0.as_str());
                        proof {
                            assert(out@ =~= prev + attr_entry_str(entry.0, entry.1));
                        }
                    } else {
                        proof {
                            assert(out@ =~= prev + attr_entry_str(entry.0, entry.1));
                        }
                    }
                },
                AttrValues::TokenSet(set) => {
                    if set.items.len() > 0 {
                        let joined = join_values(set);
                        push_char(&mut out, ' ');
                        out.append(self.table[i].0.as_str());
                        push_char(&mut out, '=');
                        push_char(&mut out, '"');
                        out.append(joined.as_str());
                        push_char(&mut out, '"');
                        proof {
                            assert(out@ =~= prev + attr_entry_str(entry.0, entry.1));
                        }
                    } else {
                        proof {
                            assert(out@ =~= prev + attr_entry_str(entry.0, entry.1));
                        }
                    }
                },
                AttrValues::List(_) => {
                    proof {
                        assert(out@ =~= prev + attr_entry_str(entry.0, entry.1));
                    }
                },
            }
            proof {
                assert(self.entries().take(i + 1).drop_last() =~= self.entries().take(i as int));
                assert(self.entries().take(i + 1).last() == entry);
            }
            i = i + 1;
        }
        proof {
            assert(self.entries().take(n as int) =~= self.entries());
        }
        out
    }

    /// Merge another collection into this one. Under `Keep` an existing
    /// key keeps its value and only absent keys are added; under `Force`
    /// every key of `map` ends up with `map`'s value.
    pub fn merge(self, map: &AttrHashMap, mode: MergeMode) -> (r: Self)
        requires
            self.wf(),
            map.wf(),
        ensures
            r.wf(),
            r@.dom() == self@.dom() + map@.dom(),
            forall|k: Seq<char>|
                #[trigger] self@.dom().contains(k) && mode is Keep ==> r@[k] == self@[k],
            forall|k: Seq<char>|
                #[trigger] map@.dom().contains(k) && mode is Force ==> r@[k] == map@[k],
            forall|k: Seq<char>|
                #[trigger] self@.dom().contains(k) && !map@.dom().contains(k) ==> r@[k] == self@[k],
            forall|k: Seq<char>|
                #[trigger] map@.dom().contains(k) && !self@.dom().contains(k) ==> r@[k] == map@[k],
    {
        proof {
            crate::rules::lemma_map_of_pairs_dom(map.entries());
            lemma_sorted_keys_distinct(map.entries());
        }
        let ghost orig = self@;
        let n = map.table.len();
        let mut acc = self;
        let mut i: usize = 0;
        while i < n
            invariant
                n == map.table@.len(),
                i <= n,
                acc.wf(),
                map.wf(),
                forall|k: Seq<char>|
                    #[trigger] acc@.dom().contains(k) <==> orig.dom().contains(k) || exists|j: int|
                        0 <= j < i && (#[trigger] map.entries()[j]).0 == k,
                forall|k: Seq<char>|
                    orig.dom().contains(k) && !(exists|j: int|
                        0 <= j < i && (#[trigger] map.entries()[j]).0 == k) ==> #[trigger] acc@[k]
                        == orig[k],
                forall|k: Seq<char>|
                    (exists|j: int| 0 <= j < i && (#[trigger] map.entries()[j]).0 == k)
                        ==> #[trigger] acc@[k] == (if mode is Keep && orig.dom().contains(k) {
                        orig[k]
                    } else {
                        map@[k]
                    }),
            decreases n - i,
        {
            let k = map.table[i].0.clone();
            let v = map.table[i].1.clone();
            proof {
                lemma_sorted_keys_distinct(map.entries());
                crate::rules::lemma_map_of_pairs_index(map.entries(), i as int);
                assert(map@[k@] == v@);
                assert(val_wf(v@));
            }
            let ghost before = acc@;
            let replace = match mode {
                MergeMode::Keep => !acc.contains_key(&k),
                MergeMode::Force => true,
            };
            if replace {
                acc = acc.add(k, v);
            }
            proof {
                assert forall|k2: Seq<char>|
                    #[trigger] acc@.dom().contains(k2) <==> orig.dom().contains(k2) || exists|
                        j: int,
                    | 0 <= j < i + 1 && (#[trigger] map.entries()[j]).0 == k2 by {
                    if acc@.dom().contains(k2) {
                        if !orig.dom().contains(k2) {
                            if before.dom().contains(k2) {
                                let j = choose|j: int|
                                    0 <= j < i && (#[trigger] map.entries()[j]).0 == k2;
                                assert(map.entries()[j].0 == k2);
                            } else {
                                assert(map.entries()[i as int].0 == k2);
                            }
                        }
                    } else {
                        assert(!before.dom().contains(k2) && k2 != k@);
                        assert forall|j: int|
                            0 <= j < i + 1 implies (#[trigger] map.entries()[j]).0 != k2 by {}
                    }
                }
                assert forall|k2: Seq<char>|
                    (exists|j: int| 0 <= j < i + 1 && (#[trigger] map.entries()[j]).0 == k2)
                        implies #[trigger] acc@[k2] == (if mode is Keep && orig.dom().contains(k2) {
                        orig[k2]
                    } else {
                        map@[k2]
                    }) by {
                    let j = choose|j: int| 0 <= j < i + 1 && (#[trigger] map.entries()[j]).0 == k2;
                    if j < i {
                        assert(k2 != k@);
                    } else {
                        assert(k2 == k@);
                        if mode is Keep && orig.dom().contains(k2) {
                            assert(!(exists|l: int|
                                0 <= l < i && (#[trigger] map.entries()[l]).0 == k2));
                            assert(before[k2] == orig[k2]);
                        }
                    }
                }
            }
            i = i + 1;
        }
        proof {
            assert forall|k: Seq<char>| #[trigger]
                map@.dom().contains(k) <==> exists|j: int|
                    0 <= j < n && (#[trigger] map.entries()[j]).0 == k by {}
            assert(acc@.dom() =~= orig.dom() + map@.dom());
        }
        acc
    }
}

/// Two sorted entry sequences carrying the same mapping are the same
/// sequence.
proof fn lemma_sorted_entries_unique(
    e1: Seq<(Seq<char>, AttrValuesModel)>,
    e2: Seq<(Seq<char>, AttrValuesModel)>,
)
    requires
        forall|i: int, j: int|
            0 <= i < j < e1.len() ==> lex_lt((#[trigger] e1[i]).0, (#[trigger] e1[j]).0),
        forall|i: int, j: int|
            0 <= i < j < e2.len() ==> lex_lt((#[trigger] e2[i]).0, (#[trigger] e2[j]).0),
        crate::rules::map_of_pairs(e1) == crate::rules::map_of_pairs(e2),
    ensures
        e1 == e2,
    decreases e1.len(),
{
    crate::rules::lemma_map_of_pairs_dom(e1);
    crate::rules::lemma_map_of_pairs_dom(e2);
    if e1.len() == 0 {
        if e2.len() > 0 {
            assert(crate::rules::map_of_pairs(e2).dom().contains(e2[e2.len() - 1].0));
            assert(crate::rules::map_of_pairs(e1).dom().contains(e2[e2.len() - 1].0));
            assert(false);
        }
        assert(e1 =~= e2);
    } else if e2.len() == 0 {
        assert(crate::rules::map_of_pairs(e1).dom().contains(e1[e1.len() - 1].0));
        assert(crate::rules::map_of_pairs(e2).dom().contains(e1[e1.len() - 1].0));
        assert(false);
        assert(e1 =~= e2);
    } else {
        let k1 = e1.last().0;
        let k2 = e2.last().0;
        assert(crate::rules::map_of_pairs(e1).dom().contains(e1[e1.len() - 1].0));
        assert(crate::rules::map_of_pairs(e2).dom().contains(e2[e2.len() - 1].0));
        let j1 = choose|j: int| 0 <= j < e2.len() && (#[trigger] e2[j]).0 == k1;
        let j2 = choose|j: int| 0 <= j < e1.len() && (#[trigger] e1[j]).0 == k2;
        if j1 < e2.len() - 1 {
            assert(lex_lt(k1, k2));
        }
        if j2 < e1.len() - 1 {
            assert(lex_lt(k2, k1));
        }
        lemma_lex_lt_asym(k1, k2);
        assert(k1 == k2);
        assert(crate::rules::map_of_pairs(e1)[k1] == e1.last().1);
        assert(crate::rules::map_of_pairs(e2)[k2] == e2.last().1);
        assert(e1.last() == e2.last());
        lemma_sorted_keys_distinct(e1);
        lemma_sorted_keys_distinct(e2);
        crate::rules::lemma_map_of_pairs_dom(e1.drop_last());
        crate::rules::lemma_map_of_pairs_dom(e2.drop_last());
        assert forall|j: int| 0 <= j < e1.drop_last().len() implies (
        #[trigger] e1.drop_last()[j]).0 != k1 by {
            assert(e1.drop_last()[j] == e1[j]);
        }
        assert forall|j: int| 0 <= j < e2.drop_last().len() implies (
        #[trigger] e2.drop_last()[j]).0 != k2 by {
            assert(e2.drop_last()[j] == e2[j]);
        }
        assert(crate::rules::map_of_pairs(e1.drop_last()) =~= crate::rules::map_of_pairs(
            e1,
        ).remove(k1));
        assert(crate::rules::map_of_pairs(e2.drop_last()) =~= crate::rules::map_of_pairs(
            e2,
        ).remove(k2));
        assert(forall|i: int, j: int|
            0 <= i < j < e1.drop_last().len() ==> lex_lt(
                (#[trigger] e1.drop_last()[i]).0,
                (#[trigger] e1.drop_last()[j]).0,
            ));
        assert(forall|i: int, j: int|
            0 <= i < j < e2.drop_last().len() ==> lex_lt(
                (#[trigger] e2.drop_last()[i]).0,
                (#[trigger] e2.drop_last()[j]).0,
            ));
        lemma_sorted_entries_unique(e1.drop_last(), e2.drop_last());
        assert(e1.drop_last().len() == e2.drop_last().len());
        assert(e1.len() == e2.len());
        assert forall|j: int| 0 <= j < e1.len() implies e1[j] == e2[j] by {
            if j < e1.len() - 1 {
                assert(e1[j] == e1.drop_last()[j]);
                assert(e2[j] == e2.drop_last()[j]);
            } else {
                assert(e1[j] == e1.last());
                assert(e2[j] == e2.last());
            }
        }
        assert(e1 =~= e2);
    }
}

/// Serialization is decided by the key-value mapping alone: two
/// collections holding the same mapping store the same entries and
/// serialize to the same text, whatever order their attributes were
/// added in.
pub proof fn lemma_serialize_insertion_order(a: AttrHashMap, b: AttrHashMap)
    requires
        a.wf(),
        b.wf(),
        a@ == b@,
    ensures
        a.entries() == b.entries(),
        spec_serialize(a.entries()) == spec_serialize(b.entries()),
{
    lemma_sorted_entries_unique(a.entries(), b.entries());
}

/// Bindings of distinct keys may be added in either order.
pub proof fn lemma_add_commutes(
    m: Map<Seq<char>, AttrValuesModel>,
    k1: Seq<char>,
    v1: AttrValuesModel,
    k2: Seq<char>,
    v2: AttrValuesModel,
)
    requires
        k1 != k2,
    ensures
        m.insert(k1, v1).insert(k2, v2) == m.insert(k2, v2).insert(k1, v1),
{
    assert(m.insert(k1, v1).insert(k2, v2) =~= m.insert(k2, v2).insert(k1, v1));
}

impl Clone for AttrHashMap {
    fn clone(&self) -> (r: Self)
        ensures
            r@ == self@,
            r.entries() == self.entries(),
    {
        let r = AttrHashMap { table: self.all() };
        proof {
            assert(r.entries() == self.entries());
        }
        r
    }
}

/// Inserting into a sequence at any position adds exactly that element
/// to the set of its elements.
proof fn lemma_seq_insert_to_set(s: Seq<Seq<char>>, i: int, v: Seq<char>)
    requires
        0 <= i <= s.len(),
    ensures
        s.insert(i, v).to_set() == s.to_set().insert(v),
{
    broadcast use vstd::seq_lib::group_seq_properties;

    let t = s.insert(i, v);
    assert forall|x: Seq<char>| t.to_set().contains(x) == s.to_set().insert(v).contains(x) by {
        if t.contains(x) {
            let j = choose|j: int| 0 <= j < t.len() && t[j] == x;
            if j < i {
                assert(s[j] == x);
            } else if j == i {
            } else {
                assert(s[j - 1] == x);
            }
        }
        if x == v {
            assert(t[i] == v);
            assert(t.contains(v));
        } else if s.contains(x) {
            let j = choose|j: int| 0 <= j < s.len() && s[j] == x;
            if j < i {
                assert(t[j] == x);
            } else {
                assert(t[j + 1] == x);
            }
            assert(t.contains(x));
        }
    }
    assert(t.to_set() =~= s.to_set().insert(v));
}


/// An immutable attribute collection as a node holds it.
pub struct SharedAttrs(AttrHashMap);

impl View for SharedAttrs {
    type V = Map<Seq<char>, AttrValuesModel>;

    closed spec fn view(&self) -> Map<Seq<char>, AttrValuesModel> {
        self.0@
    }
}

impl SharedAttrs {
    /// The entries in stored (ascending key) order.
    pub closed spec fn entries(&self) -> Seq<(Seq<char>, AttrValuesModel)> {
        self.0.entries()
    }

    pub open spec fn wf(&self) -> bool {
        entries_wf(self.entries())
    }

    pub fn new() -> (r: Self)
        ensures
            r.wf(),
            r@ == Map::<Seq<char>, AttrValuesModel>::empty(),
            r.entries() == Seq::<(Seq<char>, AttrValuesModel)>::empty(),
    {
        SharedAttrs(AttrHashMap::new())
    }

    pub fn from_map(map: AttrHashMap) -> (r: Self)
        ensures
            r@ == map@,
            r.entries() == map.entries(),
    {
        SharedAttrs(map)
    }

    pub fn get(&self) -> (r: &AttrHashMap)
        ensures
            r@ == self@,
            r.entries() == self.entries(),
    {
        &self.0
    }

    /// A copy of this collection with one more binding.
    pub fn with_added(&self, k: AttrKey, v: AttrValues) -> (r: Self)
        requires
            self.wf(),
            val_wf(v@),
        ensures
            r.wf(),
            r@ == self@.insert(k@, v@),
    {
        let new_map = self.0.clone();
        SharedAttrs(new_map.add(k, v))
    }

    /// The serialized attribute string.
    pub fn into_string(&self) -> (r: String)
        ensures
            r@ == spec_serialize(self.entries()),
    {
        self.0.into_string()
    }
}

impl Clone for SharedAttrs {
    fn clone(&self) -> (r: Self)
        ensures
            r@ == self@,
            r.entries() == self.entries(),
    {
        SharedAttrs(self.0.clone())
    }
}

/// Attributes that any element accepts.
pub trait ForGlobal {

}

/// Attributes that image elements accept, on top of the global ones.
pub trait ForImage: ForGlobal {

}

/// The global attribute group.
#[derive(Clone)]
pub struct Global;

impl ForGlobal for Global {

}

/// The image attribute group.
#[derive(Clone)]
pub struct Image;

impl ForGlobal for Image {

}

impl ForImage for Image {

}

/// An attribute collection under construction, restricted by its marker
/// type to the attributes its element accepts.
pub struct Attributes<T> {
    pub table: AttrHashMap,
    pub _marker: PhantomData<T>,
}

impl<T> Clone for Attributes<T> {
    fn clone(&self) -> (r: Self)
        ensures
            r.table@ == self.table@,
            r.table.entries() == self.table.entries(),
    {
        Attributes { table: self.table.clone(), _marker: PhantomData }
    }
}

/// Entry point for building attribute collections.
pub struct AttrBuilder;

impl AttrBuilder {
    /// A builder accepting the global attributes only.
    pub fn global() -> (r: Attributes<Global>)
        ensures
            r.table.wf(),
            r.table@ == Map::<Seq<char>, AttrValuesModel>::empty(),
    {
        Attributes { table: AttrHashMap::new(), _marker: PhantomData }
    }

    /// A builder accepting the image attributes as well.
    pub fn image() -> (r: Attributes<Image>)
        ensures
            r.table.wf(),
            r.table@ == Map::<Seq<char>, AttrValuesModel>::empty(),
    {
        Attributes { table: AttrHashMap::new(), _marker: PhantomData }
    }
}

/// The class tokens a stored value contributes to a class merge: a token
/// by itself, the members of a set or a list, nothing when the key is
/// absent.
pub open spec fn class_contrib(m: Map<Seq<char>, AttrValuesModel>) -> Set<Seq<char>> {
    if m.dom().contains("class"@) {
        match m["class"@] {
            AttrValuesModel::Token(t) => Set::empty().insert(t),
            AttrValuesModel::TokenSet(s) => s.to_set(),
            AttrValuesModel::List(l) => l.to_set(),
            AttrValuesModel::Bool(_) => Set::empty(),
        }
    } else {
        Set::empty()
    }
}

impl<T: ForGlobal> Attributes<T> {
    /// Set the identifier attribute.
    pub fn id(self, id: AttrValue) -> (r: Self)
        requires
            self.table.wf(),
        ensures
            r.table.wf(),
            r.table@ == self.table@.insert("id"@, AttrValuesModel::Token(id@)),
    {
        let table = self.table.add(AttrKey::from_str("id"), AttrValues::Token(id));
        Attributes { table, _marker: self._marker }
    }

    /// Set the tooltip title attribute.
    pub fn title(self, title: AttrValue) -> (r: Self)
        requires
            self.table.wf(),
        ensures
            r.table.wf(),
            r.table@ == self.table@.insert("title"@, AttrValuesModel::Token(title@)),
    {
        let table = self.table.add(AttrKey::from_str("title"), AttrValues::Token(title));
        Attributes { table, _marker: self._marker }
    }

    /// Merge class tokens. Unlike other attributes, classes accumulate:
    /// whatever shape the stored value had, its tokens and the incoming
    /// ones end up united in one deduplicated set.
    pub fn class(self, classes: AttrValueSet) -> (r: Self)
        requires
            self.table.wf(),
            classes.wf(),
            self.table@.dom().contains("class"@) ==> !(self.table@["class"@] is Bool),
        ensures
            r.table.wf(),
            r.table@.dom() == self.table@.dom().insert("class"@),
            r.table@["class"@] is TokenSet,
            strictly_sorted(r.table@["class"@]->TokenSet_0),
            (r.table@["class"@]->TokenSet_0).to_set() == class_contrib(self.table@) + classes@.to_set(),
            forall|k: Seq<char>|
                k != "class"@ && self.table@.dom().contains(k) ==> r.table@[k] == self.table@[k],
    {
        broadcast use vstd::seq_lib::group_seq_properties;

        let class_key = AttrKey::from_str("class");
        let mut acc = classes;
        let ghost incoming = classes@.to_set();
        match self.table.get(&class_key) {
            Some(existing) => {
                match existing {
                    AttrValues::Token(t) => {
                        acc = acc.insert(t.clone());
                        proof {
                            assert(acc@.to_set() =~= class_contrib(self.table@) + incoming);
                        }
                    },
                    AttrValues::TokenSet(s) => {
                        let sn = s.items.len();
                        proof {
                            assert(incoming + s@.take(0).to_set() =~= incoming);
                        }
                        let mut j: usize = 0;
                        while j < sn
                            invariant
                                sn == s.items@.len(),
                                j <= sn,
                                acc.wf(),
                                acc@.to_set() == incoming + s@.take(j as int).to_set(),
                            decreases sn - j,
                        {
                            let item = s.items[j].clone();
                            proof {
                                assert(item@ == s@[j as int]);
                            }
                            acc = acc.insert(item);
                            proof {
                                assert(s@.take(j + 1) =~= s@.take(j as int).push(s@[j as int]));
                                s@.take(j as int).lemma_push_to_set_commute(s@[j as int]);
                                assert((incoming + s@.take(j as int).to_set()).insert(s@[j as int])
                                    =~= incoming + s@.take(j + 1).to_set());
                            }
                            j = j + 1;
                        }
                        proof {
                            assert(s@.take(sn as int) =~= s@);
                            assert(acc@.to_set() =~= class_contrib(self.table@) + incoming);
                        }
                    },
                    AttrValues::List(l) => {
                        let ghost lview = l@.map_values(|x: AttrValue| x@);
                        let ln = l.len();
                        proof {
                            assert(incoming + lview.take(0).to_set() =~= incoming);
                        }
                        let mut j: usize = 0;
                        while j < ln
                            invariant
                                ln == l@.len(),
                                lview == l@.map_values(|x: AttrValue| x@),
                                j <= ln,
                                acc.wf(),
                                acc@.to_set() == incoming + lview.take(j as int).to_set(),
                            decreases ln - j,
                        {
                            let item = l[j].clone();
                            proof {
                                assert(item@ == lview[j as int]);
                            }
                            acc = acc.insert(item);
                            proof {
                                assert(lview.take(j + 1) =~= lview.take(j as int).push(
                                    lview[j as int],
                                ));
                                lview.take(j as int).lemma_push_to_set_commute(lview[j as int]);
                                assert((incoming + lview.take(j as int).to_set()).insert(
                                    lview[j as int],
                                ) =~= incoming + lview.take(j + 1).to_set());
                            }
                            j = j + 1;
                        }
                        proof {
                            assert(lview.take(ln as int) =~= lview);
                            assert(acc@.to_set() =~= class_contrib(self.table@) + incoming);
                        }
                    },
                    AttrValues::Bool(_) => {
                        proof {
                            assert(false);
                        }
                    },
                }
            },
            None => {
                proof {
                    assert(acc@.to_set() =~= class_contrib(self.table@) + incoming);
                }
            },
        }
        let table = self.table.add(class_key, AttrValues::TokenSet(acc));
        proof {
            assert(table@.dom() =~= self.table@.dom().insert("class"@));
        }
        Attributes { table, _marker: self._marker }
    }
}

impl<T: ForImage> Attributes<T> {
    /// Set the image source attribute.
    pub fn src(self, src: AttrValue) -> (r: Self)
        requires
            self.table.wf(),
        ensures
            r.table.wf(),
            r.table@ == self.table@.insert("src"@, AttrValuesModel::Token(src@)),
    {
        let table = self.table.add(AttrKey::from_str("src"), AttrValues::Token(src));
        Attributes { table, _marker: self._marker }
    }

    /// Set the image alternative-text attribute.
    pub fn alt(self, alt: AttrValue) -> (r: Self)
        requires
            self.table.wf(),
        ensures
            r.table.wf(),
            r.table@ == self.table@.insert("alt"@, AttrValuesModel::Token(alt@)),
    {
        let table = self.table.add(AttrKey::from_str("alt"), AttrValues::Token(alt));
        Attributes { table, _marker: self._marker }
    }
}

} // verus!
