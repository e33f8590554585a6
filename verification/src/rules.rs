//! Typography normalization: locale-keyed character tables and the rule
//! pipeline that applies them.
//!
//! The tables are plain data handed in by the caller at construction time;
//! the library owns no global state and reads no files.

use vstd::prelude::*;

use crate::sanitize::{convert_to_smart_quotes, smart_quotes};
use crate::trust::push_char;

verus! {

/// A set of characters, stored as a duplicate-free vector.
pub struct CharSet {
    items: Vec<char>,
}

impl View for CharSet {
    type V = Set<char>;

    closed spec fn view(&self) -> Set<char> {
        self.items@.to_set()
    }
}

impl CharSet {
    pub fn empty() -> (r: Self)
        ensures
            r@ == Set::<char>::empty(),
    {
        let r = CharSet { items: Vec::new() };
        proof {
            assert(r.items@.to_set() =~= Set::<char>::empty());
        }
        r
    }

    pub fn contains(&self, c: char) -> (r: bool)
        ensures
            r == self@.contains(c),
    {
        let n = self.items.len();
        let mut i: usize = 0;
        while i < n
            invariant
                n == self.items@.len(),
                i <= n,
                forall|j: int| 0 <= j < i ==> self.items@[j] != c,
            decreases n - i,
        {
            if self.items[i] == c {
                proof {
                    assert(self.items@.contains(c));
                }
                return true;
            }
            i = i + 1;
        }
        proof {
            assert(!self.items@.contains(c));
        }
        false
    }

    pub fn insert(&mut self, c: char)
        ensures
            final(self)@ == old(self)@.insert(c),
    {
        if !self.contains(c) {
            self.items.push(c);
            proof {
                old(self).items@.lemma_push_to_set_commute(c);
            }
        } else {
            proof {
                assert(final(self)@ =~= old(self)@.insert(c));
            }
        }
    }

    pub fn remove(&mut self, c: char)
        ensures
            final(self)@ == old(self)@.remove(c),
    {
        let ghost f = |x: char| x != c;
        let n = self.items.len();
        let mut kept: Vec<char> = Vec::new();
        let mut i: usize = 0;
        while i < n
            invariant
                n == self.items@.len(),
                i <= n,
                kept@ == self.items@.take(i as int).filter(f),
                f == (|x: char| x != c),
            decreases n - i,
        {
            let x = self.items[i];
            proof {
                assert(self.items@.take(i + 1) =~= self.items@.take(i as int).push(x));
                self.items@.take(i as int).lemma_filter_push(x, f);
            }
            if x != c {
                kept.push(x);
            }
            i = i + 1;
        }
        proof {
            assert(self.items@.take(n as int) =~= self.items@);
        }
        self.items = kept;
        proof {
            broadcast use vstd::seq_lib::group_seq_properties;

            let s = old(self).items@;
            assert forall|x: char| final(self)@.contains(x) == old(self)@.remove(c).contains(
                x,
            ) by {
                if final(self)@.contains(x) {
                    s.lemma_filter_contains_rev(f, x);
                    let j = choose|j: int| 0 <= j < s.filter(f).len() && s.filter(f)[j] == x;
                    s.lemma_filter_pred(f, j);
                }
                if x != c && s.contains(x) {
                    let j = choose|j: int| 0 <= j < s.len() && s[j] == x;
                    s.lemma_filter_contains(f, j);
                }
            }
            assert(final(self)@ =~= old(self)@.remove(c));
        }
    }

    /// Add every member of `other` to this set.
    pub fn union_with(&mut self, other: &CharSet)
        ensures
            final(self)@ == old(self)@ + other@,
    {
        let n = other.items.len();
        proof {
            assert(other.items@.take(0).to_set() =~= Set::<char>::empty());
            assert(old(self)@ + other.items@.take(0).to_set() =~= old(self)@);
        }
        let mut i: usize = 0;
        while i < n
            invariant
                n == other.items@.len(),
                i <= n,
                self@ == old(self)@ + other.items@.take(i as int).to_set(),
            decreases n - i,
        {
            let c = other.items[i];
            self.insert(c);
            proof {
                assert(other.items@.take(i + 1) =~= other.items@.take(i as int).push(c));
                other.items@.take(i as int).lemma_push_to_set_commute(c);
                assert((old(self)@ + other.items@.take(i as int).to_set()).insert(c) =~= old(
                    self,
                )@ + other.items@.take(i as int).to_set().insert(c));
            }
            i = i + 1;
        }
        proof {
            assert(other.items@.take(n as int) =~= other.items@);
        }
    }
}

/// The key-value mapping held by a sequence of pairs; a later pair with
/// the same key wins.
pub open spec fn map_of_pairs<K, V>(s: Seq<(K, V)>) -> Map<K, V>
    decreases s.len(),
{
    if s.len() == 0 {
        Map::empty()
    } else {
        map_of_pairs(s.drop_last()).insert(s.last().0, s.last().1)
    }
}

/// A character-to-character substitution table, stored as a vector of
/// pairs with pairwise distinct keys.
pub struct CharMap {
    pairs: Vec<(char, char)>,
}

impl View for CharMap {
    type V = Map<char, char>;

    closed spec fn view(&self) -> Map<char, char> {
        map_of_pairs(self.pairs@)
    }
}

impl CharMap {
    pub closed spec fn wf(&self) -> bool {
        forall|i: int, j: int|
            0 <= i < j < self.pairs@.len() ==> (#[trigger] self.pairs@[i]).0 != (
            #[trigger] self.pairs@[j]).0
    }

    pub fn empty() -> (r: Self)
        ensures
            r.wf(),
            r@ == Map::<char, char>::empty(),
    {
        CharMap { pairs: Vec::new() }
    }

    pub fn get(&self, c: char) -> (r: Option<char>)
        requires
            self.wf(),
        ensures
            match r {
                Some(v) => self@.dom().contains(c) && self@[c] == v,
                None => !self@.dom().contains(c),
            },
    {
        let n = self.pairs.len();
        let mut i: usize = 0;
        while i < n
            invariant
                n == self.pairs@.len(),
                i <= n,
                self.wf(),
                forall|j: int| 0 <= j < i ==> (#[trigger] self.pairs@[j]).0 != c,
            decreases n - i,
        {
            let (k, v) = self.pairs[i];
            if k == c {
                proof {
                    lemma_map_of_pairs_index(self.pairs@, i as int);
                }
                return Some(v);
            }
            i = i + 1;
        }
        proof {
            lemma_map_of_pairs_dom(self.pairs@);
        }
        None
    }

    pub fn insert(&mut self, k: char, v: char)
        requires
            old(self).wf(),
        ensures
            final(self).wf(),
            final(self)@ == old(self)@.insert(k, v),
    {
        let n = self.pairs.len();
        let mut i: usize = 0;
        while i < n
            invariant
                n == self.pairs@.len(),
                i <= n,
                self.wf(),
                self == old(self),
                forall|j: int| 0 <= j < i ==> (#[trigger] self.pairs@[j]).0 != k,
            decreases n - i,
        {
            let (pk, _) = self.pairs[i];
            if pk == k {
                self.pairs.set(i, (k, v));
                proof {
                    lemma_map_of_pairs_update(old(self).pairs@, final(self).pairs@, i as int, v);
                }
                return ;
            }
            i = i + 1;
        }
        self.pairs.push((k, v));
        proof {
            assert(final(self).pairs@.drop_last() =~= old(self).pairs@);
        }
    }

    /// The keys of the table, as a vector.
    pub fn keys(&self) -> (r: Vec<char>)
        requires
            self.wf(),
        ensures
            r@.to_set() == self@.dom(),
            r@.len() == self@.dom().len(),
    {
        let n = self.pairs.len();
        let mut out: Vec<char> = Vec::new();
        let mut i: usize = 0;
        while i < n
            invariant
                n == self.pairs@.len(),
                i <= n,
                out@.len() == i,
                forall|j: int| 0 <= j < i ==> out@[j] == (#[trigger] self.pairs@[j]).0,
            decreases n - i,
        {
            let (k, _) = self.pairs[i];
            out.push(k);
            i = i + 1;
        }
        proof {
            lemma_map_of_pairs_dom(self.pairs@);
            assert forall|x: char| out@.to_set().contains(x) == self@.dom().contains(x) by {
                if self@.dom().contains(x) {
                    let j = choose|j: int|
                        0 <= j < self.pairs@.len() && (#[trigger] self.pairs@[j]).0 == x;
                    assert(out@[j] == x);
                    assert(out@.contains(x));
                } else if out@.to_set().contains(x) {
                    let j = choose|j: int| 0 <= j < out@.len() && out@[j] == x;
                    assert(self.pairs@[j].0 == x);
                }
            }
            assert(out@.to_set() =~= self@.dom());
            assert forall|i1: int, j1: int| 0 <= i1 < j1 < out@.len() implies out@[i1] != out@[j1]
            by {
                assert(self.pairs@[i1].0 != self.pairs@[j1].0);
            }
            out@.unique_seq_to_set();
        }
        out
    }
}

/// With pairwise distinct keys, pair `i` decides the mapping at its key.
pub(crate) proof fn lemma_map_of_pairs_index<K, V>(s: Seq<(K, V)>, i: int)
    requires
        0 <= i < s.len(),
        forall|a: int, b: int|
            0 <= a < b < s.len() ==> (#[trigger] s[a]).0 != (#[trigger] s[b]).0,
    ensures
        map_of_pairs(s).dom().contains(s[i].0),
        map_of_pairs(s)[s[i].0] == s[i].1,
    decreases s.len(),
{
    if i == s.len() - 1 {
    } else {
        assert(s.drop_last()[i] == s[i]);
        lemma_map_of_pairs_index(s.drop_last(), i);
        assert(s[i].0 != s.last().0);
    }
}

/// The domain of the mapping is exactly the set of keys of the pairs.
pub(crate) proof fn lemma_map_of_pairs_dom<K, V>(s: Seq<(K, V)>)
    ensures
        forall|x: K|
            map_of_pairs(s).dom().contains(x) <==> exists|j: int|
                0 <= j < s.len() && (#[trigger] s[j]).0 == x,
    decreases s.len(),
{
    if s.len() > 0 {
        let rest = s.drop_last();
        lemma_map_of_pairs_dom(rest);
        assert forall|x: K| map_of_pairs(s).dom().contains(x) implies exists|j: int|
            0 <= j < s.len() && (#[trigger] s[j]).0 == x by {
            if x == s.last().0 {
                assert(s[s.len() - 1].0 == x);
            } else {
                assert(map_of_pairs(rest).dom().contains(x));
                let j = choose|j: int| 0 <= j < rest.len() && (#[trigger] rest[j]).0 == x;
                assert(s[j] == rest[j]);
                assert((s[j]).0 == x);
            }
        }
        assert forall|x: K|
            (exists|j: int| 0 <= j < s.len() && (#[trigger] s[j]).0 == x) implies map_of_pairs(
            s,
        ).dom().contains(x) by {
            let j = choose|j: int| 0 <= j < s.len() && (#[trigger] s[j]).0 == x;
            if j == s.len() - 1 {
                assert(map_of_pairs(s).dom().contains(s.last().0));
            } else {
                assert(rest[j] == s[j]);
                assert((rest[j]).0 == x);
                assert(map_of_pairs(rest).dom().contains(x));
            }
        }
    }
}

/// Overwriting the value at one key's pair updates the mapping at that
/// key alone.
pub(crate) proof fn lemma_map_of_pairs_update<K, V>(s: Seq<(K, V)>, t: Seq<(K, V)>, i: int, v: V)
    requires
        0 <= i < s.len(),
        t == s.update(i, (s[i].0, v)),
        forall|a: int, b: int|
            0 <= a < b < s.len() ==> (#[trigger] s[a]).0 != (#[trigger] s[b]).0,
    ensures
        forall|a: int, b: int|
            0 <= a < b < t.len() ==> (#[trigger] t[a]).0 != (#[trigger] t[b]).0,
        map_of_pairs(t) == map_of_pairs(s).insert(s[i].0, v),
    decreases s.len(),
{
    assert forall|a: int, b: int|
        0 <= a < b < t.len() implies (#[trigger] t[a]).0 != (#[trigger] t[b]).0 by {
        assert(t[a].0 == s[a].0 && t[b].0 == s[b].0);
    }
    if i == s.len() - 1 {
        assert(t.drop_last() =~= s.drop_last());
        assert(map_of_pairs(t) =~= map_of_pairs(s).insert(s[i].0, v));
    } else {
        assert(t.drop_last() =~= s.drop_last().update(i, (s.drop_last()[i].0, v)));
        assert(forall|a: int, b: int|
            0 <= a < b < s.drop_last().len() ==> (#[trigger] s.drop_last()[a]).0 != (
            #[trigger] s.drop_last()[b]).0);
        lemma_map_of_pairs_update(s.drop_last(), t.drop_last(), i, v);
        assert(t.last() == s.last());
        assert(s.drop_last()[i].0 == s[i].0);
        assert(s[i].0 != s.last().0);
        assert(map_of_pairs(t) == map_of_pairs(s.drop_last()).insert(s[i].0, v).insert(
            s.last().0,
            s.last().1,
        ));
        assert(map_of_pairs(s.drop_last()).insert(s[i].0, v).insert(s.last().0, s.last().1)
            =~= map_of_pairs(s.drop_last()).insert(s.last().0, s.last().1).insert(s[i].0, v));
    }
}

/// Relies on `char::from_u32`: `Some` exactly on Unicode scalar values,
/// and the returned character has the given code.
#[verifier::external_body]
pub(crate) fn char_from_u32(u: u32) -> (r: Option<char>)
    ensures
        r is Some <==> vstd::utf8::is_scalar(u),
        r is Some ==> (r->0) as u32 == u,
{
    char::from_u32(u)
}

/// The substitution pairs a flat codepoint list encodes from position `i`
/// on, added to `m`: element `i` is an original, element `i + 1` its
/// replacement; a pair with an invalid scalar is skipped; a later pair
/// with the same key wins; a trailing odd element is ignored.
pub open spec fn chunk_pairs_into(m: Map<char, char>, v: Seq<u32>, i: int) -> Map<char, char>
    decreases v.len() - i,
{
    if i < 0 || i + 1 >= v.len() {
        m
    } else {
        let m2 = if vstd::utf8::is_scalar(v[i]) && vstd::utf8::is_scalar(v[i + 1]) {
            m.insert(v[i] as char, v[i + 1] as char)
        } else {
            m
        };
        chunk_pairs_into(m2, v, i + 2)
    }
}

/// The substitution table a flat codepoint list encodes.
pub open spec fn chunk_pairs(v: Seq<u32>) -> Map<char, char> {
    chunk_pairs_into(Map::empty(), v, 0)
}

/// The set of characters whose codes occur in a codepoint list.
pub open spec fn char_set_of(v: Seq<u32>) -> Set<char> {
    Set::new(|c: char| exists|j: int| 0 <= j < v.len() && v[j] == c as u32)
}

/// Add the substitution pairs of a codepoint list to a table.
pub(crate) fn charmap_extend_codepoints(m: &mut CharMap, v: &Vec<u32>)
    requires
        old(m).wf(),
    ensures
        final(m).wf(),
        final(m)@ == chunk_pairs_into(old(m)@, v@, 0),
{
    let n = v.len();
    let mut i: usize = 0;
    while n - i >= 2
        invariant
            n == v@.len(),
            i <= n,
            m.wf(),
            chunk_pairs_into(old(m)@, v@, 0) == chunk_pairs_into(m@, v@, i as int),
        decreases n - i,
    {
        let c0 = char_from_u32(v[i]);
        let c1 = char_from_u32(v[i + 1]);
        match (c0, c1) {
            (Some(a), Some(b)) => {
                proof {
                    vstd::utf8::char_u32_cast(a, v@[i as int]);
                    vstd::utf8::char_u32_cast(b, v@[i as int + 1]);
                }
                m.insert(a, b);
            },
            _ => {
            },
        }
        i = i + 2;
    }
    proof {
        assert(chunk_pairs_into(m@, v@, i as int) == m@);
    }
}

/// Add the valid characters of a codepoint list to a set.
pub(crate) fn charset_extend_codepoints(s: &mut CharSet, v: &Vec<u32>)
    ensures
        final(s)@ == old(s)@ + char_set_of(v@),
{
    let n = v.len();
    proof {
        assert(char_set_of(v@.take(0)) =~= Set::<char>::empty());
        assert(old(s)@ + char_set_of(v@.take(0)) =~= old(s)@);
    }
    let mut i: usize = 0;
    while i < n
        invariant
            n == v@.len(),
            i <= n,
            s@ == old(s)@ + char_set_of(v@.take(i as int)),
        decreases n - i,
    {
        let ghost prev = s@;
        match char_from_u32(v[i]) {
            Some(c) => {
                s.insert(c);
                proof {
                    lemma_char_set_of_take_known(v@, i as int, c);
                    assert(s@ =~= old(s)@ + char_set_of(v@.take(i + 1)));
                }
            },
            None => {
                proof {
                    lemma_char_set_of_take_invalid(v@, i as int);
                    assert(s@ =~= old(s)@ + char_set_of(v@.take(i + 1)));
                }
            },
        }
        i = i + 1;
    }
    proof {
        assert(v@.take(n as int) =~= v@);
    }
}

/// When codepoint `i` is the code of character `x`, one more codepoint
/// extends the encoded character set by exactly that character.
proof fn lemma_char_set_of_take_known(v: Seq<u32>, i: int, x: char)
    requires
        0 <= i < v.len(),
        x as u32 == v[i],
    ensures
        char_set_of(v.take(i + 1)) == char_set_of(v.take(i)).insert(x),
{
    broadcast use vstd::seq_lib::group_seq_properties;

    assert forall|c: char|
        char_set_of(v.take(i + 1)).contains(c) == char_set_of(v.take(i)).insert(x).contains(c) by {
        if char_set_of(v.take(i + 1)).contains(c) {
            let j = choose|j: int| 0 <= j < v.take(i + 1).len() && #[trigger] v.take(i + 1)[j] == c as u32;
            if j == i {
                vstd::utf8::char_u32_cast(c, v[i]);
                vstd::utf8::char_u32_cast(x, v[i]);
            } else {
                assert(v.take(i)[j] == c as u32);
            }
        } else {
            if c == x {
                assert(v.take(i + 1)[i] == c as u32);
            }
            if char_set_of(v.take(i)).contains(c) {
                let j = choose|j: int| 0 <= j < v.take(i).len() && #[trigger] v.take(i)[j] == c as u32;
                assert(v.take(i + 1)[j] == c as u32);
            }
        }
    }
    assert(char_set_of(v.take(i + 1)) =~= char_set_of(v.take(i)).insert(x));
}

/// A codepoint that is no character's code leaves the encoded character
/// set unchanged.
proof fn lemma_char_set_of_take_invalid(v: Seq<u32>, i: int)
    requires
        0 <= i < v.len(),
        !vstd::utf8::is_scalar(v[i]),
    ensures
        char_set_of(v.take(i + 1)) == char_set_of(v.take(i)),
{
    broadcast use vstd::seq_lib::group_seq_properties;

    assert forall|c: char|
        char_set_of(v.take(i + 1)).contains(c) == char_set_of(v.take(i)).contains(c) by {
        if char_set_of(v.take(i + 1)).contains(c) {
            let j = choose|j: int| 0 <= j < v.take(i + 1).len() && #[trigger] v.take(i + 1)[j] == c as u32;
            vstd::utf8::char_is_scalar(c);
            assert(j != i);
            assert(v.take(i)[j] == c as u32);
        }
        if char_set_of(v.take(i)).contains(c) {
            let j = choose|j: int| 0 <= j < v.take(i).len() && #[trigger] v.take(i)[j] == c as u32;
            assert(v.take(i + 1)[j] == c as u32);
        }
    }
    assert(char_set_of(v.take(i + 1)) =~= char_set_of(v.take(i)));
}

/// The index of the first dash in a text, or its length when it has none.
pub open spec fn dash_index(s: Seq<char>) -> int
    decreases s.len(),
{
    if s.len() == 0 {
        0
    } else if s[0] == '-' {
        0
    } else {
        1 + dash_index(s.drop_first())
    }
}

/// Whether the text holds a dash, as locale identifiers such as `zh-hans`
/// do.
pub open spec fn has_dash(s: Seq<char>) -> bool {
    dash_index(s) < s.len()
}

/// The base-language prefix of a locale identifier: the text before its
/// first dash.
pub open spec fn base_lang(s: Seq<char>) -> Seq<char> {
    s.take(dash_index(s))
}

pub proof fn lemma_dash_index_bounds(s: Seq<char>)
    ensures
        0 <= dash_index(s) <= s.len(),
        dash_index(s) < s.len() ==> s[dash_index(s)] == '-',
        forall|j: int| 0 <= j < dash_index(s) ==> s[j] != '-',
    decreases s.len(),
{
    if s.len() > 0 && s[0] != '-' {
        lemma_dash_index_bounds(s.drop_first());
        assert forall|j: int| 0 <= j < dash_index(s) implies s[j] != '-' by {
            if j > 0 {
                assert(s.drop_first()[j - 1] == s[j]);
            }
        }
        if dash_index(s) < s.len() {
            assert(s.drop_first()[dash_index(s) - 1] == s[dash_index(s)]);
        }
    }
}

proof fn lemma_dash_index_at(s: Seq<char>, i: int)
    requires
        0 <= i <= s.len(),
        forall|j: int| 0 <= j < i ==> s[j] != '-',
        i < s.len() ==> s[i] == '-',
    ensures
        dash_index(s) == i,
    decreases s.len(),
{
    if s.len() > 0 && i > 0 {
        assert(s[0] != '-');
        assert forall|j: int| 0 <= j < i - 1 implies s.drop_first()[j] != '-' by {
            assert(s.drop_first()[j] == s[j + 1]);
        }
        if i - 1 < s.drop_first().len() {
            assert(s.drop_first()[i - 1] == s[i]);
        }
        lemma_dash_index_at(s.drop_first(), i - 1);
    }
}

/// Find the first dash of a text, or its length when it has none.
fn find_dash(s: &str) -> (r: usize)
    ensures
        r == dash_index(s@),
{
    let n = s.unicode_len();
    let mut i: usize = 0;
    while i < n
        invariant
            n == s@.len(),
            i <= n,
            forall|j: int| 0 <= j < i ==> s@[j] != '-',
        decreases n - i,
    {
        if s.get_char(i) == '-' {
            proof {
                lemma_dash_index_at(s@, i as int);
            }
            return i;
        }
        i = i + 1;
    }
    proof {
        lemma_dash_index_at(s@, n as int);
    }
    n
}

/// Find the entry of a keyed vector whose key reads `key`.
pub(crate) fn find_key<V>(v: &Vec<(String, V)>, key: &str) -> (r: Option<usize>)
    ensures
        match r {
            Some(j) => j < v@.len() && v@[j as int].0@ == key@,
            None => forall|j: int| 0 <= j < v@.len() ==> (#[trigger] v@[j]).0@ != key@,
        },
{
    let n = v.len();
    let mut i: usize = 0;
    while i < n
        invariant
            n == v@.len(),
            i <= n,
            forall|j: int| 0 <= j < i ==> (#[trigger] v@[j]).0@ != key@,
        decreases n - i,
    {
        if crate::trust::str_eq(v[i].0.as_str(), key) {
            return Some(i);
        }
        i = i + 1;
    }
    None
}

/// The substitution table that governs a locale: the first table present
/// in the fallback order exact locale, base language, `_default`,
/// `_common`; an empty table when none is present.
pub open spec fn resolve_ambiguous(tables: Map<Seq<char>, Map<char, char>>, locale: Seq<char>) -> Map<
    char,
    char,
> {
    if tables.dom().contains(locale) {
        tables[locale]
    } else if has_dash(locale) && tables.dom().contains(base_lang(locale)) {
        tables[base_lang(locale)]
    } else if tables.dom().contains("_default"@) {
        tables["_default"@]
    } else if tables.dom().contains("_common"@) {
        tables["_common"@]
    } else {
        Map::empty()
    }
}

/// The invisible-character set that governs a locale: the `_common` set
/// is always included; the locale-resolved set (exact locale, else base
/// language) is added to it.
pub open spec fn resolve_invisible(tables: Map<Seq<char>, Set<char>>, locale: Seq<char>) -> Set<
    char,
> {
    (if tables.dom().contains("_common"@) {
        tables["_common"@]
    } else {
        Set::empty()
    }) + (if tables.dom().contains(locale) {
        tables[locale]
    } else if has_dash(locale) && tables.dom().contains(base_lang(locale)) {
        tables[base_lang(locale)]
    } else {
        Set::empty()
    })
}

/// The keys of the substitution table stored under a locale, or the
/// empty set when none is stored.
spec fn locale_substitutable(amb: Seq<(String, CharMap)>, key: Seq<char>) -> Set<char> {
    if exists|j: int| 0 <= j < amb.len() && (#[trigger] amb[j]).0@ == key {
        amb[choose|j: int| 0 <= j < amb.len() && (#[trigger] amb[j]).0@ == key].1@.dom()
    } else {
        Set::empty()
    }
}

proof fn lemma_locale_substitutable_at(amb: Seq<(String, CharMap)>, key: Seq<char>, j: int)
    requires
        0 <= j < amb.len(),
        amb[j].0@ == key,
        forall|a: int, b: int|
            0 <= a < b < amb.len() ==> (#[trigger] amb[a]).0@ != (#[trigger] amb[b]).0@,
    ensures
        locale_substitutable(amb, key) == amb[j].1@.dom(),
{
    assert(exists|l: int| 0 <= l < amb.len() && (#[trigger] amb[l]).0@ == key);
    let l = choose|l: int| 0 <= l < amb.len() && (#[trigger] amb[l]).0@ == key;
    assert(l == j);
}

proof fn lemma_locale_substitutable_none(amb: Seq<(String, CharMap)>, key: Seq<char>)
    requires
        forall|j: int| 0 <= j < amb.len() ==> (#[trigger] amb[j]).0@ != key,
    ensures
        locale_substitutable(amb, key) == Set::<char>::empty(),
{
}

/// The locale-keyed normalization tables: which characters are invisible
/// and which are substituted, per locale tier.
pub struct SanitizationRules {
    invisible_chars: Vec<(String, CharSet)>,
    ambiguous_map: Vec<(String, CharMap)>,
}

impl SanitizationRules {
    pub closed spec fn inv_entries(&self) -> Seq<(Seq<char>, Set<char>)> {
        self.invisible_chars@.map_values(|p: (String, CharSet)| (p.0@, p.1@))
    }

    pub closed spec fn amb_entries(&self) -> Seq<(Seq<char>, Map<char, char>)> {
        self.ambiguous_map@.map_values(|p: (String, CharMap)| (p.0@, p.1@))
    }

    /// The invisible-character set of each locale tier.
    pub open spec fn invisible_tables(&self) -> Map<Seq<char>, Set<char>> {
        map_of_pairs(self.inv_entries())
    }

    /// The substitution table of each locale tier.
    pub open spec fn ambiguous_tables(&self) -> Map<Seq<char>, Map<char, char>> {
        map_of_pairs(self.amb_entries())
    }

    #[verifier::type_invariant]
    spec fn wf(&self) -> bool {
        &&& forall|i: int, j: int|
            0 <= i < j < self.invisible_chars@.len() ==> (#[trigger] self.invisible_chars@[i]).0@
                != (#[trigger] self.invisible_chars@[j]).0@
        &&& forall|i: int, j: int|
            0 <= i < j < self.ambiguous_map@.len() ==> (#[trigger] self.ambiguous_map@[i]).0@ != (
            #[trigger] self.ambiguous_map@[j]).0@
        &&& forall|i: int|
            0 <= i < self.ambiguous_map@.len() ==> (#[trigger] self.ambiguous_map@[i]).1.wf()
    }

    /// Build the tables from plain locale-keyed codepoint lists, as an
    /// external loader hands them in. Each ambiguous list encodes
    /// original/replacement pairs; each invisible list encodes a character
    /// set, from which the same locale's substitutable characters are
    /// removed, so that a character with a meaningful substitution is
    /// never silently dropped.
    pub fn new(invisible_data: Vec<(String, Vec<u32>)>, ambiguous_data: Vec<(String, Vec<u32>)>) -> (r:
        Self)
        requires
            forall|i: int, j: int|
                0 <= i < j < invisible_data@.len() ==> (#[trigger] invisible_data@[i]).0@ != (
                #[trigger] invisible_data@[j]).0@,
            forall|i: int, j: int|
                0 <= i < j < ambiguous_data@.len() ==> (#[trigger] ambiguous_data@[i]).0@ != (
                #[trigger] ambiguous_data@[j]).0@,
        ensures
            forall|k: Seq<char>|
                #[trigger] r.ambiguous_tables().dom().contains(k) <==> exists|i: int|
                    0 <= i < ambiguous_data@.len() && (#[trigger] ambiguous_data@[i]).0@ == k,
            forall|i: int|
                0 <= i < ambiguous_data@.len() ==> r.ambiguous_tables()[(
                #[trigger] ambiguous_data@[i]).0@] == chunk_pairs(ambiguous_data@[i].1@),
            forall|k: Seq<char>|
                #[trigger] r.invisible_tables().dom().contains(k) <==> exists|i: int|
                    0 <= i < invisible_data@.len() && (#[trigger] invisible_data@[i]).0@ == k,
            forall|i: int|
                0 <= i < invisible_data@.len() ==> r.invisible_tables()[(
                #[trigger] invisible_data@[i]).0@] == char_set_of(
                    invisible_data@[i].1@,
                ).difference(
                    if r.ambiguous_tables().dom().contains(invisible_data@[i].0@) {
                        r.ambiguous_tables()[invisible_data@[i].0@].dom()
                    } else {
                        Set::empty()
                    },
                ),
    {
        let an = ambiguous_data.len();
        let mut amb: Vec<(String, CharMap)> = Vec::new();
        let mut i: usize = 0;
        while i < an
            invariant
                an == ambiguous_data@.len(),
                i <= an,
                amb@.len() == i,
                forall|j: int|
                    0 <= j < i ==> (#[trigger] amb@[j]).0@ == ambiguous_data@[j].0@ && amb@[j].1@
                        == chunk_pairs(ambiguous_data@[j].1@) && amb@[j].1.wf(),
            decreases an - i,
        {
            let k = ambiguous_data[i].0.clone();
            let mut m = CharMap::empty();
            charmap_extend_codepoints(&mut m, &ambiguous_data[i].1);
            amb.push((k, m));
            i = i + 1;
        }
        let ghost amb_snapshot = amb@;
        let vn = invisible_data.len();
        let mut inv: Vec<(String, CharSet)> = Vec::new();
        let mut i: usize = 0;
        while i < vn
            invariant
                vn == invisible_data@.len(),
                i <= vn,
                inv@.len() == i,
                amb@ == amb_snapshot,
                an == ambiguous_data@.len(),
                amb@.len() == an,
                forall|j: int|
                    0 <= j < an ==> (#[trigger] amb@[j]).0@ == ambiguous_data@[j].0@ && amb@[j].1@
                        == chunk_pairs(ambiguous_data@[j].1@) && amb@[j].1.wf(),
                forall|j: int, l: int|
                    0 <= j < l < ambiguous_data@.len() ==> (#[trigger] ambiguous_data@[j]).0@ != (
                    #[trigger] ambiguous_data@[l]).0@,
                forall|j: int|
                    0 <= j < i ==> (#[trigger] inv@[j]).0@ == invisible_data@[j].0@ && inv@[j].1@
                        == char_set_of(invisible_data@[j].1@).difference(
                        locale_substitutable(amb@, invisible_data@[j].0@),
                    ),
            decreases vn - i,
        {
            let k = invisible_data[i].0.clone();
            let mut s = CharSet::empty();
            charset_extend_codepoints(&mut s, &invisible_data[i].1);
            let ghost full = s@;
            proof {
                assert(Set::<char>::empty() + char_set_of(invisible_data@[i as int].1@)
                    =~= char_set_of(invisible_data@[i as int].1@));
            }
            match find_key(&amb, invisible_data[i].0.as_str()) {
                Some(j) => {
                    let ks = amb[j].1.keys();
                    let kn = ks.len();
                    proof {
                        assert(full.difference(ks@.take(0).to_set()) =~= full);
                    }
                    let mut t: usize = 0;
                    while t < kn
                        invariant
                            kn == ks@.len(),
                            t <= kn,
                            s@ == full.difference(ks@.take(t as int).to_set()),
                        decreases kn - t,
                    {
                        let c = ks[t];
                        s.remove(c);
                        proof {
                            assert(ks@.take(t + 1) =~= ks@.take(t as int).push(c));
                            ks@.take(t as int).lemma_push_to_set_commute(c);
                            assert(full.difference(ks@.take(t as int).to_set()).remove(c)
                                =~= full.difference(ks@.take(t as int).to_set().insert(c)));
                        }
                        t = t + 1;
                    }
                    proof {
                        assert(ks@.take(kn as int) =~= ks@);
                        assert(locale_substitutable(amb@, invisible_data@[i as int].0@) == amb@[
                        j as int].1@.dom()) by {
                            lemma_locale_substitutable_at(amb@, invisible_data@[i as int].0@, j as int);
                        }
                    }
                },
                None => {
                    proof {
                        assert(locale_substitutable(amb@, invisible_data@[i as int].0@) =~= Set::<
                            char,
                        >::empty()) by {
                            lemma_locale_substitutable_none(amb@, invisible_data@[i as int].0@);
                        }
                        assert(s@ =~= full.difference(
                            locale_substitutable(amb@, invisible_data@[i as int].0@),
                        ));
                    }
                },
            }
            inv.push((k, s));
            i = i + 1;
        }
        let r = SanitizationRules { invisible_chars: inv, ambiguous_map: amb };
        proof {
            lemma_map_of_pairs_dom(r.amb_entries());
            lemma_map_of_pairs_dom(r.inv_entries());
            assert forall|k: Seq<char>|
                #[trigger] r.ambiguous_tables().dom().contains(k) == exists|i2: int|
                    0 <= i2 < ambiguous_data@.len() && (#[trigger] ambiguous_data@[i2]).0@ == k by {
                if r.ambiguous_tables().dom().contains(k) {
                    let j = choose|j: int|
                        0 <= j < r.amb_entries().len() && (#[trigger] r.amb_entries()[j]).0 == k;
                    assert(ambiguous_data@[j].0@ == k);
                }
                if exists|i2: int|
                    0 <= i2 < ambiguous_data@.len() && (#[trigger] ambiguous_data@[i2]).0@ == k {
                    let j = choose|j: int|
                        0 <= j < ambiguous_data@.len() && (#[trigger] ambiguous_data@[j]).0@ == k;
                    assert((#[trigger] r.amb_entries()[j]).0 == k);
                }
            }
            assert forall|k: Seq<char>|
                #[trigger] r.invisible_tables().dom().contains(k) == exists|i2: int|
                    0 <= i2 < invisible_data@.len() && (#[trigger] invisible_data@[i2]).0@ == k by {
                if r.invisible_tables().dom().contains(k) {
                    let j = choose|j: int|
                        0 <= j < r.inv_entries().len() && (#[trigger] r.inv_entries()[j]).0 == k;
                    assert(invisible_data@[j].0@ == k);
                }
                if exists|i2: int|
                    0 <= i2 < invisible_data@.len() && (#[trigger] invisible_data@[i2]).0@ == k {
                    let j = choose|j: int|
                        0 <= j < invisible_data@.len() && (#[trigger] invisible_data@[j]).0@ == k;
                    assert((#[trigger] r.inv_entries()[j]).0 == k);
                }
            }
            assert forall|i2: int| 0 <= i2 < ambiguous_data@.len() implies r.ambiguous_tables()[(
            #[trigger] ambiguous_data@[i2]).0@] == chunk_pairs(ambiguous_data@[i2].1@) by {
                lemma_map_of_pairs_index(r.amb_entries(), i2);
            }
            assert forall|i2: int| 0 <= i2 < invisible_data@.len() implies r.invisible_tables()[(
            #[trigger] invisible_data@[i2]).0@] == char_set_of(invisible_data@[i2].1@).difference(
                if r.ambiguous_tables().dom().contains(invisible_data@[i2].0@) {
                    r.ambiguous_tables()[invisible_data@[i2].0@].dom()
                } else {
                    Set::empty()
                },
            ) by {
                lemma_map_of_pairs_index(r.inv_entries(), i2);
                if r.ambiguous_tables().dom().contains(invisible_data@[i2].0@) {
                    let j = choose|j: int|
                        0 <= j < r.amb_entries().len() && (#[trigger] r.amb_entries()[j]).0
                            == invisible_data@[i2].0@;
                    lemma_map_of_pairs_index(r.amb_entries(), j);
                    lemma_locale_substitutable_at(amb_snapshot, invisible_data@[i2].0@, j);
                } else {
                    assert forall|j: int| 0 <= j < amb_snapshot.len() implies (
                    #[trigger] amb_snapshot[j]).0@ != invisible_data@[i2].0@ by {
                        assert((#[trigger] r.amb_entries()[j]).0 == amb_snapshot[j].0@);
                        if amb_snapshot[j].0@ == invisible_data@[i2].0@ {
                            assert(r.ambiguous_tables().dom().contains(invisible_data@[i2].0@));
                        }
                    }
                    lemma_locale_substitutable_none(amb_snapshot, invisible_data@[i2].0@);
                    assert(locale_substitutable(amb_snapshot, invisible_data@[i2].0@) =~= Set::<
                        char,
                    >::empty());
                }
            }
        }
        r
    }

    /// The ambiguous table resolved for a locale.
    pub fn get_ambiguous_pairs(&self, locale: &str) -> (r: Option<&CharMap>)
        ensures
            match r {
                Some(m) => m@ == resolve_ambiguous(self.ambiguous_tables(), locale@) && m.wf(),
                None => resolve_ambiguous(self.ambiguous_tables(), locale@) == Map::<
                    char,
                    char,
                >::empty(),
            },
    {
        proof {
            use_type_invariant(&*self);
            lemma_map_of_pairs_dom(self.amb_entries());
            lemma_dash_index_bounds(locale@);
        }
        if let Some(j) = find_key(&self.ambiguous_map, locale) {
            proof {
                lemma_map_of_pairs_index(self.amb_entries(), j as int);
            }
            return Some(&self.ambiguous_map[j].1);
        }
        let di = find_dash(locale);
        if di < locale.unicode_len() {
            let base = locale.substring_char(0, di);
            proof {
                assert(base@ == base_lang(locale@));
            }
            if let Some(j) = find_key(&self.ambiguous_map, base) {
                proof {
                    lemma_map_of_pairs_index(self.amb_entries(), j as int);
                }
                return Some(&self.ambiguous_map[j].1);
            }
        }
        if let Some(j) = find_key(&self.ambiguous_map, "_default") {
            proof {
                lemma_map_of_pairs_index(self.amb_entries(), j as int);
            }
            return Some(&self.ambiguous_map[j].1);
        }
        if let Some(j) = find_key(&self.ambiguous_map, "_common") {
            proof {
                lemma_map_of_pairs_index(self.amb_entries(), j as int);
            }
            return Some(&self.ambiguous_map[j].1);
        }
        None
    }

    /// The invisible-character set resolved for a locale: always the
    /// `_common` tier, extended by the locale tier when one is present.
    pub fn get_invisible_chars(&self, locale: &str) -> (r: CharSet)
        ensures
            r@ == resolve_invisible(self.invisible_tables(), locale@),
    {
        proof {
            use_type_invariant(&*self);
            lemma_map_of_pairs_dom(self.inv_entries());
            lemma_dash_index_bounds(locale@);
        }
        let mut result = CharSet::empty();
        if let Some(j) = find_key(&self.invisible_chars, "_common") {
            proof {
                lemma_map_of_pairs_index(self.inv_entries(), j as int);
            }
            result.union_with(&self.invisible_chars[j].1);
            proof {
                assert(result@ =~= self.invisible_tables()["_common"@]);
            }
        }
        let ghost common_part: Set<char> = if self.invisible_tables().dom().contains("_common"@) {
            self.invisible_tables()["_common"@]
        } else {
            Set::empty()
        };
        proof {
            assert(result@ =~= common_part);
        }
        if let Some(j) = find_key(&self.invisible_chars, locale) {
            proof {
                lemma_map_of_pairs_index(self.inv_entries(), j as int);
            }
            result.union_with(&self.invisible_chars[j].1);
            proof {
                assert(result@ =~= resolve_invisible(self.invisible_tables(), locale@));
            }
            return result;
        }
        let di = find_dash(locale);
        if di < locale.unicode_len() {
            let base = locale.substring_char(0, di);
            proof {
                assert(base@ == base_lang(locale@));
            }
            if let Some(j) = find_key(&self.invisible_chars, base) {
                proof {
                    lemma_map_of_pairs_index(self.inv_entries(), j as int);
                }
                result.union_with(&self.invisible_chars[j].1);
                proof {
                    assert(result@ =~= resolve_invisible(self.invisible_tables(), locale@));
                }
                return result;
            }
        }
        proof {
            assert(result@ + Set::<char>::empty() =~= result@);
            assert(result@ =~= resolve_invisible(self.invisible_tables(), locale@));
        }
        result
    }
}


/// The text with each character that the table maps substituted by its
/// replacement; characters absent from the table pass through unchanged.
pub open spec fn subst_chars(m: Map<char, char>, s: Seq<char>) -> Seq<char> {
    s.map_values(
        |c: char|
            if m.dom().contains(c) {
                m[c]
            } else {
                c
            },
    )
}

/// The text with every character of the set removed.
pub open spec fn filter_invisible(set: Set<char>, s: Seq<char>) -> Seq<char> {
    s.filter(|c: char| !set.contains(c))
}

/// The named rule stages a ruleset may run.
pub enum RuleList {
    All,
    AmbiguousChar,
    InvisibleCharacters,
    Punctuation,
}

/// Punctuation glyphs a ruleset renders.
pub trait Punctuation {
    fn ellipsis() -> (c: char)
        ensures
            c == '\u{2026}',
    {
        '\u{2026}'
    }

    fn en_dash() -> (c: char)
        ensures
            c == '\u{2013}',
    {
        '\u{2013}'
    }

    fn em_dash() -> (c: char)
        ensures
            c == '\u{2013}',
    {
        '\u{2013}'
    }
}

/// A normalization ruleset: an ordered list of named stages applied in
/// sequence, each stage's output feeding the next.
pub trait Rules: Sized {
    type Punctuations: Punctuation;

    /// What the ambiguous-character stage does to a text.
    spec fn ambiguous_spec(&self, s: Seq<char>) -> Seq<char>;

    /// What the invisible-character stage does to a text.
    spec fn invisible_spec(&self, s: Seq<char>) -> Seq<char>;

    /// What the quote-normalization stage does to a text.
    spec fn punctuation_spec(&self, s: Seq<char>) -> Seq<char>;

    /// What running the whole configured pipeline does to a text.
    spec fn apply_spec(&self, s: Seq<char>) -> Seq<char>;

    /// Which stage configurations the ruleset can run.
    spec fn apply_req(&self) -> bool;

    fn apply(&self, input: &str) -> (r: String)
        requires
            self.apply_req(),
        ensures
            r@ == self.apply_spec(input@),
    ;

    fn replace_ambiguous_chars(&self, input: &str) -> (r: String)
        ensures
            r@ == self.ambiguous_spec(input@),
    ;

    fn remove_invisible_chars(&self, input: &str) -> (r: String)
        ensures
            r@ == self.invisible_spec(input@),
    ;

    fn punctuation_rule(&self, input: &str) -> (r: String)
        ensures
            r@ == self.punctuation_spec(input@),
    ;
}

/// The default ruleset: the configured stages run against the tables of
/// the `_default` locale tier.
pub struct Default {
    pub rules: Vec<RuleList>,
    pub tables: SanitizationRules,
}

pub enum DefaultPunc {
    Ellipsis,
    En,
    Em,
}

impl Punctuation for DefaultPunc {

}

impl Default {
    /// The substitution table the `_default` tier resolves to.
    pub open spec fn spec_ambiguous_table(&self) -> Map<char, char> {
        resolve_ambiguous(self.tables.ambiguous_tables(), "_default"@)
    }

    /// The invisible-character set the `_default` tier resolves to.
    pub open spec fn spec_invisible_set(&self) -> Set<char> {
        resolve_invisible(self.tables.invisible_tables(), "_default"@)
    }

    /// A ruleset over explicitly supplied tables.
    pub fn new(rules: Vec<RuleList>, tables: SanitizationRules) -> (r: Self)
        ensures
            r.rules@ == rules@,
            r.spec_ambiguous_table() == resolve_ambiguous(tables.ambiguous_tables(), "_default"@),
            r.spec_invisible_set() == resolve_invisible(tables.invisible_tables(), "_default"@),
    {
        Default { rules, tables }
    }

    /// What one named stage does to a text.
    pub open spec fn stage_spec(&self, s: Seq<char>, stage: RuleList) -> Seq<char> {
        match stage {
            RuleList::All => self.punctuation_spec(self.invisible_spec(self.ambiguous_spec(s))),
            RuleList::AmbiguousChar => self.ambiguous_spec(s),
            RuleList::InvisibleCharacters => self.invisible_spec(s),
            RuleList::Punctuation => s,
        }
    }

    /// The stages of a list applied in order, first stage first.
    pub open spec fn apply_stages(&self, s: Seq<char>, stages: Seq<RuleList>) -> Seq<char>
        decreases stages.len(),
    {
        if stages.len() == 0 {
            s
        } else {
            self.apply_stages(self.stage_spec(s, stages[0]), stages.drop_first())
        }
    }
}

impl Rules for Default {
    type Punctuations = DefaultPunc;

    open spec fn ambiguous_spec(&self, s: Seq<char>) -> Seq<char> {
        subst_chars(self.spec_ambiguous_table(), s)
    }

    open spec fn invisible_spec(&self, s: Seq<char>) -> Seq<char> {
        filter_invisible(self.spec_invisible_set(), s)
    }

    open spec fn punctuation_spec(&self, s: Seq<char>) -> Seq<char> {
        smart_quotes(s)
    }

    open spec fn apply_spec(&self, s: Seq<char>) -> Seq<char> {
        self.apply_stages(s, self.rules@)
    }

    /// The punctuation stage alone is not implemented as a stage.
    open spec fn apply_req(&self) -> bool {
        forall|i: int| 0 <= i < self.rules@.len() ==> !((#[trigger] self.rules@[i]) is Punctuation)
    }

    /// Run the configured stages in order.
    fn apply(&self, input: &str) -> (r: String) {
        let mut result = String::from_str(input);
        proof {
            assert(self.rules@.skip(0) =~= self.rules@);
        }
        let n = self.rules.len();
        let mut i: usize = 0;
        while i < n
            invariant
                n == self.rules@.len(),
                i <= n,
                self.apply_req(),
                self.apply_spec(input@) == self.apply_stages(result@, self.rules@.skip(i as int)),
            decreases n - i,
        {
            let ghost before = result@;
            let ghost stages = self.rules@.skip(i as int);
            match self.rules[i] {
                RuleList::All => {
                    result = self.replace_ambiguous_chars(result.as_str());
                    result = self.remove_invisible_chars(result.as_str());
                    result = self.punctuation_rule(result.as_str());
                },
                RuleList::AmbiguousChar => {
                    result = self.replace_ambiguous_chars(result.as_str());
                },
                RuleList::InvisibleCharacters => {
                    result = self.remove_invisible_chars(result.as_str());
                },
                RuleList::Punctuation => {
                    proof {
                        assert(false);
                    }
                },
            }
            proof {
                assert(stages[0] == self.rules@[i as int]);
                assert(stages.drop_first() =~= self.rules@.skip(i + 1));
                assert(result@ == self.stage_spec(before, self.rules@[i as int]));
            }
            i = i + 1;
        }
        proof {
            assert(self.rules@.skip(n as int) =~= Seq::<RuleList>::empty());
        }
        result
    }

    /// Substitute each ambiguous character by its replacement from the
    /// resolved table.
    fn replace_ambiguous_chars(&self, input: &str) -> (r: String) {
        let table = self.tables.get_ambiguous_pairs("_default");
        let ghost m = self.spec_ambiguous_table();
        let ghost f = |c: char|
            if m.dom().contains(c) {
                m[c]
            } else {
                c
            };
        let n = input.unicode_len();
        let mut out = String::new();
        let mut i: usize = 0;
        while i < n
            invariant
                n == input@.len(),
                i <= n,
                m == self.spec_ambiguous_table(),
                f == (|c: char|
                    if m.dom().contains(c) {
                        m[c]
                    } else {
                        c
                    }),
                match table {
                    Some(t) => t@ == m && t.wf(),
                    None => m == Map::<char, char>::empty(),
                },
                out@ == input@.take(i as int).map_values(f),
            decreases n - i,
        {
            let c = input.get_char(i);
            let mapped = match table {
                Some(t) => match t.get(c) {
                    Some(v) => v,
                    None => c,
                },
                None => c,
            };
            push_char(&mut out, mapped);
            proof {
                assert(input@.take(i + 1) =~= input@.take(i as int).push(c));
                input@.take(i as int).lemma_push_map_commute(f, c);
                assert(mapped == f(c));
            }
            i = i + 1;
        }
        proof {
            assert(input@.take(n as int) =~= input@);
        }
        out
    }

    /// Drop every character of the resolved invisible set.
    fn remove_invisible_chars(&self, input: &str) -> (r: String) {
        let set = self.tables.get_invisible_chars("_default");
        let ghost sv = self.spec_invisible_set();
        let ghost f = |c: char| !sv.contains(c);
        let n = input.unicode_len();
        let mut out = String::new();
        let mut i: usize = 0;
        while i < n
            invariant
                n == input@.len(),
                i <= n,
                sv == self.spec_invisible_set(),
                set@ == sv,
                f == (|c: char| !sv.contains(c)),
                out@ == input@.take(i as int).filter(f),
            decreases n - i,
        {
            let c = input.get_char(i);
            proof {
                assert(input@.take(i + 1) =~= input@.take(i as int).push(c));
                input@.take(i as int).lemma_filter_push(c, f);
            }
            if !set.contains(c) {
                push_char(&mut out, c);
            }
            i = i + 1;
        }
        proof {
            assert(input@.take(n as int) =~= input@);
        }
        out
    }

    /// Convert straight quotes to curly ones.
    fn punctuation_rule(&self, input: &str) -> (r: String) {
        convert_to_smart_quotes(input)
    }
}

} // verus!
