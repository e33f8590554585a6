//! Locale-independent sanitization: escaping wrappers, smart-quote
//! conversion, and the flat character tables merged from the common and
//! default tiers.

use vstd::prelude::*;

use crate::rules::{
    char_set_of, charmap_extend_codepoints, charset_extend_codepoints, chunk_pairs_into, find_key,
    map_of_pairs, subst_chars, CharMap, CharSet,
};
use crate::trust::{escape_html_chars, escape_seq, push_char, str_eq};

verus! {

/// Whether a character counts as alphabetic when deciding that a straight
/// single quote is an apostrophe.
pub uninterp spec fn is_alphabetic_char(c: char) -> bool;

/// Relies on `char::is_alphabetic`: the result depends on the character
/// alone.
#[verifier::external_body]
fn char_is_alphabetic(c: char) -> (r: bool)
    ensures
        r == is_alphabetic_char(c),
{
    c.is_alphabetic()
}

/// A straight single quote is an apostrophe when the characters on both
/// sides are alphabetic; a quote at either edge of the text never is.
pub open spec fn quote_is_apostrophe(s: Seq<char>, i: int) -> bool {
    &&& 0 < i
    &&& i + 1 < s.len()
    &&& is_alphabetic_char(s[i - 1])
    &&& is_alphabetic_char(s[i + 1])
}

/// The text from position `i` on, with straight quotes replaced by curly
/// ones. `in_double` and `in_single` are the two independent nesting
/// toggles: each non-apostrophe straight quote becomes an opening or a
/// closing curly quote by its own toggle's state, and flips it.
pub open spec fn smart_quotes_from(s: Seq<char>, i: int, in_double: bool, in_single: bool) -> Seq<
    char,
>
    decreases s.len() - i,
{
    if i < 0 || i >= s.len() {
        Seq::empty()
    } else {
        let c = s[i];
        if c == '"' {
            seq![if in_double { '\u{201D}' } else { '\u{201C}' }] + smart_quotes_from(
                s,
                i + 1,
                !in_double,
                in_single,
            )
        } else if c == '\'' {
            if quote_is_apostrophe(s, i) {
                seq!['\u{2019}'] + smart_quotes_from(s, i + 1, in_double, in_single)
            } else {
                seq![if in_single { '\u{2019}' } else { '\u{2018}' }] + smart_quotes_from(
                    s,
                    i + 1,
                    in_double,
                    !in_single,
                )
            }
        } else {
            seq![c] + smart_quotes_from(s, i + 1, in_double, in_single)
        }
    }
}

/// Smart-quote conversion of a whole text, both toggles initially open.
pub open spec fn smart_quotes(s: Seq<char>) -> Seq<char> {
    smart_quotes_from(s, 0, false, false)
}

/// Convert straight quotes to curly ones in a single left-to-right scan.
pub fn convert_to_smart_quotes(s: &str) -> (r: String)
    ensures
        r@ == smart_quotes(s@),
{
    let n = s.unicode_len();
    let mut result = String::new();
    let mut in_double = false;
    let mut in_single = false;
    let mut i: usize = 0;
    while i < n
        invariant
            n == s@.len(),
            i <= n,
            smart_quotes(s@) == result@ + smart_quotes_from(s@, i as int, in_double, in_single),
        decreases n - i,
    {
        let ghost prev_out = result@;
        let ghost prev_double = in_double;
        let ghost prev_single = in_single;
        let c = s.get_char(i);
        if c == '"' {
            if in_double {
                push_char(&mut result, '\u{201D}');
            } else {
                push_char(&mut result, '\u{201C}');
            }
            in_double = !in_double;
        } else if c == '\'' {
            let apostrophe = i > 0 && i + 1 < n && char_is_alphabetic(s.get_char(i - 1))
                && char_is_alphabetic(s.get_char(i + 1));
            proof {
                assert(apostrophe == quote_is_apostrophe(s@, i as int));
            }
            if apostrophe {
                push_char(&mut result, '\u{2019}');
            } else {
                if in_single {
                    push_char(&mut result, '\u{2019}');
                } else {
                    push_char(&mut result, '\u{2018}');
                }
                in_single = !in_single;
            }
        } else {
            push_char(&mut result, c);
        }
        proof {
            let emitted = result@.subrange(prev_out.len() as int, result@.len() as int);
            assert(result@ =~= prev_out + emitted);
            assert(smart_quotes_from(s@, i as int, prev_double, prev_single) == emitted
                + smart_quotes_from(s@, i + 1, in_double, in_single));
            assert((prev_out + emitted) + smart_quotes_from(s@, i + 1, in_double, in_single)
                =~= prev_out + (emitted + smart_quotes_from(s@, i + 1, in_double, in_single)));
        }
        i = i + 1;
    }
    result
}

/// True when the text holds no straight double quote and no straight
/// single quote.
pub open spec fn no_straight_quotes(s: Seq<char>) -> bool {
    forall|i: int| 0 <= i < s.len() ==> s[i] != '"' && s[i] != '\''
}

/// The conversion never emits a straight quote.
proof fn lemma_smart_quotes_output_clean(s: Seq<char>, i: int, in_double: bool, in_single: bool)
    ensures
        no_straight_quotes(smart_quotes_from(s, i, in_double, in_single)),
    decreases s.len() - i,
{
    if 0 <= i < s.len() {
        let c = s[i];
        if c == '"' {
            lemma_smart_quotes_output_clean(s, i + 1, !in_double, in_single);
        } else if c == '\'' {
            if quote_is_apostrophe(s, i) {
                lemma_smart_quotes_output_clean(s, i + 1, in_double, in_single);
            } else {
                lemma_smart_quotes_output_clean(s, i + 1, in_double, !in_single);
            }
        } else {
            lemma_smart_quotes_output_clean(s, i + 1, in_double, in_single);
        }
    }
}

/// Text without straight quotes passes through the conversion unchanged.
proof fn lemma_smart_quotes_fixpoint(s: Seq<char>, i: int, in_double: bool, in_single: bool)
    requires
        no_straight_quotes(s),
        0 <= i <= s.len(),
    ensures
        smart_quotes_from(s, i, in_double, in_single) == s.subrange(i, s.len() as int),
    decreases s.len() - i,
{
    if i < s.len() {
        lemma_smart_quotes_fixpoint(s, i + 1, in_double, in_single);
        assert(seq![s[i]] + s.subrange(i + 1, s.len() as int) =~= s.subrange(i, s.len() as int));
    } else {
        assert(s.subrange(i, s.len() as int) =~= Seq::<char>::empty());
    }
}

/// Quote conversion is idempotent: its output contains only curly
/// quotes, and text already containing only curly quotes is left
/// unchanged, so a second run returns its input exactly.
pub proof fn lemma_smart_quotes_idempotent(s: Seq<char>)
    ensures
        smart_quotes(smart_quotes(s)) == smart_quotes(s),
{
    let once = smart_quotes(s);
    lemma_smart_quotes_output_clean(s, 0, false, false);
    lemma_smart_quotes_fixpoint(once, 0, false, false);
    assert(once.subrange(0, once.len() as int) =~= once);
}

/// The codepoint lists of locale-keyed data, as a mapping.
pub open spec fn data_tiers(d: Seq<(String, Vec<u32>)>) -> Map<Seq<char>, Seq<u32>> {
    map_of_pairs(d.map_values(|p: (String, Vec<u32>)| (p.0@, p.1@)))
}

/// The codepoint list a tier holds, or the empty list when the tier is
/// absent.
pub open spec fn tier_codepoints(d: Seq<(String, Vec<u32>)>, key: Seq<char>) -> Seq<u32> {
    if data_tiers(d).dom().contains(key) {
        data_tiers(d)[key]
    } else {
        Seq::empty()
    }
}

/// The one substitution table merged from the `_common` and `_default`
/// tiers, in that order; a later pair wins.
pub open spec fn merged_ambiguous(d: Seq<(String, Vec<u32>)>) -> Map<char, char> {
    chunk_pairs_into(
        chunk_pairs_into(Map::empty(), tier_codepoints(d, "_common"@), 0),
        tier_codepoints(d, "_default"@),
        0,
    )
}

/// The characters of every tier's invisible list, together.
pub open spec fn all_invisible(d: Seq<(String, Vec<u32>)>) -> Set<char>
    decreases d.len(),
{
    if d.len() == 0 {
        Set::empty()
    } else {
        all_invisible(d.drop_last()) + char_set_of(d.last().1@)
    }
}

/// The flat sanitization tables: one invisible-character set and one
/// substitution table, merged from the common and default tiers of
/// locale-keyed codepoint data.
pub struct SanitizationRules {
    invisible_chars: CharSet,
    ambiguous_map: CharMap,
}

impl SanitizationRules {
    #[verifier::type_invariant]
    spec fn type_wf(&self) -> bool {
        self.ambiguous_map.wf()
    }

    /// The set of characters that are removed.
    pub closed spec fn invisible_set(&self) -> Set<char> {
        self.invisible_chars@
    }

    /// The substitution mapping that is applied.
    pub closed spec fn ambiguous(&self) -> Map<char, char> {
        self.ambiguous_map@
    }

    /// Build the flat tables from locale-keyed codepoint data: the
    /// substitutions of the `_common` and `_default` tiers merged, the
    /// invisible characters of every tier pooled, and every substitutable
    /// character withheld from the invisible set.
    pub fn from_data(
        invisible_data: Vec<(String, Vec<u32>)>,
        ambiguous_data: Vec<(String, Vec<u32>)>,
    ) -> (r: Self)
        requires
            forall|i: int, j: int|
                0 <= i < j < ambiguous_data@.len() ==> (#[trigger] ambiguous_data@[i]).0@ != (
                #[trigger] ambiguous_data@[j]).0@,
        ensures
            r.ambiguous() == merged_ambiguous(ambiguous_data@),
            r.invisible_set() == all_invisible(invisible_data@).difference(r.ambiguous().dom()),
    {
        let ghost entries = ambiguous_data@.map_values(|p: (String, Vec<u32>)| (p.0@, p.1@));
        let mut amb = CharMap::empty();
        match find_key(&ambiguous_data, "_common") {
            Some(j) => {
                charmap_extend_codepoints(&mut amb, &ambiguous_data[j].1);
                proof {
                    crate::rules::lemma_map_of_pairs_index(entries, j as int);
                    assert(tier_codepoints(ambiguous_data@, "_common"@) == ambiguous_data@[
                    j as int].1@);
                }
            },
            None => {
                proof {
                    crate::rules::lemma_map_of_pairs_dom(entries);
                    assert(!data_tiers(ambiguous_data@).dom().contains("_common"@));
                    assert(tier_codepoints(ambiguous_data@, "_common"@) == Seq::<u32>::empty());
                }
            },
        }
        proof {
            assert(amb@ == chunk_pairs_into(
                Map::empty(),
                tier_codepoints(ambiguous_data@, "_common"@),
                0,
            ));
        }
        match find_key(&ambiguous_data, "_default") {
            Some(j) => {
                charmap_extend_codepoints(&mut amb, &ambiguous_data[j].1);
                proof {
                    crate::rules::lemma_map_of_pairs_index(entries, j as int);
                    assert(tier_codepoints(ambiguous_data@, "_default"@) == ambiguous_data@[
                    j as int].1@);
                }
            },
            None => {
                proof {
                    crate::rules::lemma_map_of_pairs_dom(entries);
                    assert(!data_tiers(ambiguous_data@).dom().contains("_default"@));
                    assert(tier_codepoints(ambiguous_data@, "_default"@) == Seq::<u32>::empty());
                }
            },
        }
        proof {
            assert(amb@ == merged_ambiguous(ambiguous_data@));
        }
        let vn = invisible_data.len();
        let mut inv = CharSet::empty();
        proof {
            assert(invisible_data@.take(0) =~= Seq::<(String, Vec<u32>)>::empty());
            assert(inv@ =~= all_invisible(invisible_data@.take(0)));
        }
        let mut i: usize = 0;
        while i < vn
            invariant
                vn == invisible_data@.len(),
                i <= vn,
                inv@ == all_invisible(invisible_data@.take(i as int)),
            decreases vn - i,
        {
            charset_extend_codepoints(&mut inv, &invisible_data[i].1);
            proof {
                assert(invisible_data@.take(i + 1).drop_last() =~= invisible_data@.take(i as int));
            }
            i = i + 1;
        }
        proof {
            assert(invisible_data@.take(vn as int) =~= invisible_data@);
        }
        let ghost full = inv@;
        let ks = amb.keys();
        let kn = ks.len();
        proof {
            assert(full.difference(ks@.take(0).to_set()) =~= full);
        }
        let mut t: usize = 0;
        while t < kn
            invariant
                kn == ks@.len(),
                t <= kn,
                inv@ == full.difference(ks@.take(t as int).to_set()),
            decreases kn - t,
        {
            let c = ks[t];
            inv.remove(c);
            proof {
                assert(ks@.take(t + 1) =~= ks@.take(t as int).push(c));
                ks@.take(t as int).lemma_push_to_set_commute(c);
                assert(full.difference(ks@.take(t as int).to_set()).remove(c) =~= full.difference(
                    ks@.take(t as int).to_set().insert(c),
                ));
            }
            t = t + 1;
        }
        proof {
            assert(ks@.take(kn as int) =~= ks@);
        }
        SanitizationRules { invisible_chars: inv, ambiguous_map: amb }
    }
}

/// Drop every character of the invisible set from the text.
pub fn remove_invisible_chars(input: &str, rules: &SanitizationRules) -> (r: String)
    ensures
        r@ == input@.filter(|c: char| !rules.invisible_set().contains(c)),
{
    let ghost f = |c: char| !rules.invisible_set().contains(c);
    let n = input.unicode_len();
    let mut out = String::new();
    let mut i: usize = 0;
    while i < n
        invariant
            n == input@.len(),
            i <= n,
            f == (|c: char| !rules.invisible_set().contains(c)),
            out@ == input@.take(i as int).filter(f),
        decreases n - i,
    {
        let c = input.get_char(i);
        proof {
            assert(input@.take(i + 1) =~= input@.take(i as int).push(c));
            input@.take(i as int).lemma_filter_push(c, f);
        }
        if !rules.invisible_chars.contains(c) {
            push_char(&mut out, c);
        }
        i = i + 1;
    }
    proof {
        assert(input@.take(n as int) =~= input@);
    }
    out
}

/// Substitute each character the table maps by its replacement.
pub fn replace_ambiguous_chars(input: &str, rules: &SanitizationRules) -> (r: String)
    ensures
        r@ == subst_chars(rules.ambiguous(), input@),
{
    proof {
        use_type_invariant(rules);
    }
    let ghost m = rules.ambiguous();
    let ghost f = |c: char|
        if m.dom().contains(c) {
            m[c]
        } else {
            c
        };
    let n = input.unicode_len();
    let mut out = String::new();
    let mut i: usize = 0;
    while i < n
        invariant
            n == input@.len(),
            i <= n,
            m == rules.ambiguous(),
            rules.ambiguous_map.wf(),
            f == (|c: char|
                if m.dom().contains(c) {
                    m[c]
                } else {
                    c
                }),
            out@ == input@.take(i as int).map_values(f),
        decreases n - i,
    {
        let c = input.get_char(i);
        let mapped = match rules.ambiguous_map.get(c) {
            Some(v) => v,
            None => c,
        };
        push_char(&mut out, mapped);
        proof {
            assert(input@.take(i + 1) =~= input@.take(i as int).push(c));
            input@.take(i as int).lemma_push_map_commute(f, c);
            assert(mapped == f(c));
        }
        i = i + 1;
    }
    proof {
        assert(input@.take(n as int) =~= input@);
    }
    out
}

/// Remove the invisible characters, then apply the substitutions.
pub fn sanitize_string(input: &str, rules: &SanitizationRules) -> (r: String)
    ensures
        r@ == subst_chars(
            rules.ambiguous(),
            input@.filter(|c: char| !rules.invisible_set().contains(c)),
        ),
{
    let without_invisible = remove_invisible_chars(input, rules);
    replace_ambiguous_chars(without_invisible.as_str(), rules)
}

/// A text node written by an author, escaped at construction.
#[derive(Debug, Hash)]
pub struct Content(String);

/// An attribute value written by an author, escaped at construction.
#[derive(Debug, Hash)]
pub struct AttrValue(String);

/// An attribute name, stored verbatim; wrapping one is an explicit
/// assertion of trust.
#[derive(Debug, Hash)]
pub struct AttrKey(String);

/// A markup block from an already-correct source, stored verbatim;
/// wrapping one is an explicit assertion of trust.
#[derive(Debug)]
pub struct HtmlBlock(String);

impl View for Content {
    type V = Seq<char>;

    closed spec fn view(&self) -> Seq<char> {
        self.0@
    }
}

impl View for AttrValue {
    type V = Seq<char>;

    closed spec fn view(&self) -> Seq<char> {
        self.0@
    }
}

impl View for AttrKey {
    type V = Seq<char>;

    closed spec fn view(&self) -> Seq<char> {
        self.0@
    }
}

impl View for HtmlBlock {
    type V = Seq<char>;

    closed spec fn view(&self) -> Seq<char> {
        self.0@
    }
}

/// A value constructible from arbitrary text only through escaping.
pub trait SafeString: Sized + View<V = Seq<char>> {
    fn from_str(s: &str) -> (r: Self)
        ensures
            r@ == escape_seq(s@),
    ;

    fn into_inner(self) -> (r: String)
        ensures
            r@ == self@,
    ;
}

impl SafeString for Content {
    fn from_str(s: &str) -> (r: Self) {
        Content(escape_html_chars(s))
    }

    fn into_inner(self) -> (r: String) {
        self.0
    }
}

impl SafeString for AttrValue {
    fn from_str(s: &str) -> (r: Self) {
        AttrValue(escape_html_chars(s))
    }

    fn into_inner(self) -> (r: String) {
        self.0
    }
}

impl AttrKey {
    /// Wrap a trusted attribute name verbatim.
    pub fn new_trusted(key: &str) -> (r: Self)
        ensures
            r@ == key@,
    {
        AttrKey(key.to_owned())
    }

    pub fn into_inner(self) -> (r: String)
        ensures
            r@ == self@,
    {
        self.0
    }
}

impl HtmlBlock {
    /// Wrap a trusted markup block verbatim.
    pub fn new_trusted(block: &str) -> (r: Self)
        ensures
            r@ == block@,
    {
        HtmlBlock(block.to_owned())
    }

    pub fn into_inner(self) -> (r: String)
        ensures
            r@ == self@,
    {
        self.0
    }
}

impl Clone for Content {
    fn clone(&self) -> (r: Self)
        ensures
            r == *self,
    {
        Content(self.0.clone())
    }
}

impl Clone for AttrValue {
    fn clone(&self) -> (r: Self)
        ensures
            r == *self,
    {
        AttrValue(self.0.clone())
    }
}

impl Clone for AttrKey {
    fn clone(&self) -> (r: Self)
        ensures
            r == *self,
    {
        AttrKey(self.0.clone())
    }
}

impl Clone for HtmlBlock {
    fn clone(&self) -> (r: Self)
        ensures
            r == *self,
    {
        HtmlBlock(self.0.clone())
    }
}

impl PartialEq for Content {
    fn eq(&self, other: &Self) -> (r: bool) {
        str_eq(self.0.as_str(), other.0.as_str())
    }
}

impl vstd::std_specs::cmp::PartialEqSpecImpl for Content {
    open spec fn obeys_eq_spec() -> bool {
        true
    }

    open spec fn eq_spec(&self, other: &Self) -> bool {
        self@ == other@
    }
}

impl Eq for Content {

}

impl PartialEq for AttrValue {
    fn eq(&self, other: &Self) -> (r: bool) {
        str_eq(self.0.as_str(), other.0.as_str())
    }
}

impl vstd::std_specs::cmp::PartialEqSpecImpl for AttrValue {
    open spec fn obeys_eq_spec() -> bool {
        true
    }

    open spec fn eq_spec(&self, other: &Self) -> bool {
        self@ == other@
    }
}

impl Eq for AttrValue {

}

impl PartialEq for AttrKey {
    fn eq(&self, other: &Self) -> (r: bool) {
        str_eq(self.0.as_str(), other.0.as_str())
    }
}

impl vstd::std_specs::cmp::PartialEqSpecImpl for AttrKey {
    open spec fn obeys_eq_spec() -> bool {
        true
    }

    open spec fn eq_spec(&self, other: &Self) -> bool {
        self@ == other@
    }
}

impl Eq for AttrKey {

}

impl PartialEq for HtmlBlock {
    fn eq(&self, other: &Self) -> (r: bool) {
        str_eq(self.0.as_str(), other.0.as_str())
    }
}

impl vstd::std_specs::cmp::PartialEqSpecImpl for HtmlBlock {
    open spec fn obeys_eq_spec() -> bool {
        true
    }

    open spec fn eq_spec(&self, other: &Self) -> bool {
        self@ == other@
    }
}

impl Eq for HtmlBlock {

}

} // verus!
