//! Trust-boundary string types.
//!
//! Text entering the library is either untrusted (escaped at construction:
//! [`Content`], [`AttrValue`]) or trusted (stored verbatim: [`AttrKey`],
//! [`TagName`], [`HtmlBlock`]).

use vstd::prelude::*;

use crate::rules::Rules;

verus! {

/// The replacement for one character of untrusted text: the five
/// structurally significant characters become named entities, every
/// other character passes through unchanged.
pub open spec fn escape_char(c: char) -> Seq<char> {
    if c == '<' {
        seq!['&', 'l', 't', ';']
    } else if c == '>' {
        seq!['&', 'g', 't', ';']
    } else if c == '&' {
        seq!['&', 'a', 'm', 'p', ';']
    } else if c == '"' {
        seq!['&', 'q', 'u', 'o', 't', ';']
    } else if c == '\'' {
        seq!['&', '#', '3', '9', ';']
    } else {
        seq![c]
    }
}

/// The escaped form of a whole text: the concatenation of the escaped
/// forms of its characters.
pub open spec fn escape_seq(s: Seq<char>) -> Seq<char>
    decreases s.len(),
{
    if s.len() == 0 {
        Seq::empty()
    } else {
        escape_char(s[0]) + escape_seq(s.drop_first())
    }
}

pub proof fn lemma_escape_seq_concat(a: Seq<char>, b: Seq<char>)
    ensures
        escape_seq(a + b) == escape_seq(a) + escape_seq(b),
    decreases a.len(),
{
    if a.len() == 0 {
        assert(a + b =~= b);
        assert(escape_seq(a) + escape_seq(b) =~= escape_seq(b));
    } else {
        assert((a + b).drop_first() =~= a.drop_first() + b);
        lemma_escape_seq_concat(a.drop_first(), b);
        assert(escape_char(a[0]) + (escape_seq(a.drop_first()) + escape_seq(b)) =~= (escape_char(
            a[0],
        ) + escape_seq(a.drop_first())) + escape_seq(b));
    }
}

pub proof fn lemma_escape_seq_push(s: Seq<char>, c: char)
    ensures
        escape_seq(s.push(c)) == escape_seq(s) + escape_char(c),
{
    assert(s.push(c) =~= s + seq![c]);
    lemma_escape_seq_concat(s, seq![c]);
    let single = seq![c];
    assert(single.drop_first() =~= Seq::<char>::empty());
    assert(escape_seq(single) == escape_char(single[0]) + escape_seq(single.drop_first()));
    assert(escape_char(c) + escape_seq(Seq::<char>::empty()) =~= escape_char(c));
}

/// Relies on `String::push`: appends exactly the one character.
#[verifier::external_body]
pub(crate) fn push_char(s: &mut String, c: char)
    ensures
        final(s)@ == old(s)@.push(c),
{
    s.push(c)
}

/// Escape the five structurally significant characters of markup text.
pub(crate) fn escape_html_chars(input: &str) -> (r: String)
    ensures
        r@ == escape_seq(input@),
{
    let n = input.unicode_len();
    let mut out = String::new();
    let mut i: usize = 0;
    while i < n
        invariant
            n == input@.len(),
            i <= n,
            out@ == escape_seq(input@.take(i as int)),
        decreases n - i,
    {
        let c = input.get_char(i);
        if c == '<' {
            out.append("&lt;");
            proof {
                reveal_strlit("&lt;");
                assert("&lt;"@ =~= escape_char(c));
            }
        } else if c == '>' {
            out.append("&gt;");
            proof {
                reveal_strlit("&gt;");
                assert("&gt;"@ =~= escape_char(c));
            }
        } else if c == '&' {
            out.append("&amp;");
            proof {
                reveal_strlit("&amp;");
                assert("&amp;"@ =~= escape_char(c));
            }
        } else if c == '"' {
            out.append("&quot;");
            proof {
                reveal_strlit("&quot;");
                assert("&quot;"@ =~= escape_char(c));
            }
        } else if c == '\'' {
            out.append("&#39;");
            proof {
                reveal_strlit("&#39;");
                assert("&#39;"@ =~= escape_char(c));
            }
        } else {
            push_char(&mut out, c);
            proof {
                assert(out@ =~= escape_seq(input@.take(i as int)) + escape_char(c));
            }
        }
        proof {
            lemma_escape_seq_push(input@.take(i as int), input@[i as int]);
            assert(input@.take(i as int).push(input@[i as int]) =~= input@.take(i + 1));
        }
        i = i + 1;
    }
    proof {
        assert(input@.take(n as int) =~= input@);
    }
    out
}

/// True when one of the five entities that [`escape_char`] emits stands
/// in `r` beginning at index `i`.
pub open spec fn entity_starts_at(r: Seq<char>, i: int) -> bool {
    ||| (i + 4 <= r.len() && r.subrange(i, i + 4) == escape_char('<'))
    ||| (i + 4 <= r.len() && r.subrange(i, i + 4) == escape_char('>'))
    ||| (i + 5 <= r.len() && r.subrange(i, i + 5) == escape_char('&'))
    ||| (i + 6 <= r.len() && r.subrange(i, i + 6) == escape_char('"'))
    ||| (i + 5 <= r.len() && r.subrange(i, i + 5) == escape_char('\''))
}

/// Escaped text can never be read as markup structure: it holds no angle
/// bracket and no quote character at all, and every ampersand in it is the
/// start of one of the five named entities.
pub proof fn lemma_escaped_text_safe(s: Seq<char>)
    ensures
        forall|i: int|
            0 <= i < escape_seq(s).len() ==> escape_seq(s)[i] != '<' && escape_seq(s)[i] != '>'
                && escape_seq(s)[i] != '"' && escape_seq(s)[i] != '\'',
        forall|i: int|
            0 <= i < escape_seq(s).len() && escape_seq(s)[i] == '&' ==> entity_starts_at(
                escape_seq(s),
                i,
            ),
    decreases s.len(),
{
    if s.len() != 0 {
        let r = escape_seq(s);
        let p = escape_char(s[0]);
        let rest = escape_seq(s.drop_first());
        lemma_escaped_text_safe(s.drop_first());
        assert(r == p + rest);
        assert forall|i: int|
            0 <= i < r.len() implies r[i] != '<' && r[i] != '>' && r[i] != '"' && r[i] != '\'' && (
        r[i] == '&' ==> entity_starts_at(r, i)) by {
            if i < p.len() {
                assert(r[i] == p[i]);
                if p.len() == 1 {
                    // an unescaped character is never one of the five specials
                    assert(p[0] == s[0]);
                } else {
                    // p is one of the five entities; '&' stands only at its head
                    if i == 0 {
                        assert(r.subrange(0, p.len() as int) =~= p);
                    }
                }
            } else {
                let j = i - p.len();
                assert(r[i] == rest[j]);
                if rest[j] == '&' {
                    assert(entity_starts_at(rest, j));
                    if j + 4 <= rest.len() && rest.subrange(j, j + 4) == escape_char('<') {
                        assert(r.subrange(i, i + 4) =~= rest.subrange(j, j + 4));
                    } else if j + 4 <= rest.len() && rest.subrange(j, j + 4) == escape_char('>') {
                        assert(r.subrange(i, i + 4) =~= rest.subrange(j, j + 4));
                    } else if j + 5 <= rest.len() && rest.subrange(j, j + 5) == escape_char('&') {
                        assert(r.subrange(i, i + 5) =~= rest.subrange(j, j + 5));
                    } else if j + 6 <= rest.len() && rest.subrange(j, j + 6) == escape_char('"') {
                        assert(r.subrange(i, i + 6) =~= rest.subrange(j, j + 6));
                    } else {
                        assert(r.subrange(i, i + 5) =~= rest.subrange(j, j + 5));
                    }
                    assert(entity_starts_at(r, i));
                }
            }
        }
    }
}

/// A text node written by an author. The structurally significant
/// characters are escaped when the value is constructed.
#[derive(Debug, Hash)]
pub struct Content(String);

/// An attribute value written by an author, escaped at construction.
#[derive(Debug, Hash)]
pub struct AttrValue(String);

/// An attribute name. Stored verbatim: values of this kind come from the
/// library's own code paths, never from arbitrary external text.
#[derive(Debug, Hash)]
pub struct AttrKey(String);

/// A block of markup produced by an already-correct external source.
/// Stored and later emitted verbatim, with no escaping and no
/// normalization.
#[derive(Debug)]
pub struct HtmlBlock(String);

/// An element tag name. Stored verbatim; constructed only inside the
/// library.
#[derive(Debug, Hash)]
pub struct TagName(String);

impl View for Content {
    type V = Seq<char>;

    closed spec fn view(&self) -> Seq<char> {
        self.0@
    }
}

impl View for AttrValue {
    type V = Seq<char>;

    closed spec fn view(&self) -> Seq<char> {
        self.0@
    }
}

impl View for AttrKey {
    type V = Seq<char>;

    closed spec fn view(&self) -> Seq<char> {
        self.0@
    }
}

impl View for HtmlBlock {
    type V = Seq<char>;

    closed spec fn view(&self) -> Seq<char> {
        self.0@
    }
}

impl View for TagName {
    type V = Seq<char>;

    closed spec fn view(&self) -> Seq<char> {
        self.0@
    }
}

impl Clone for Content {
    fn clone(&self) -> (r: Self)
        ensures
            r == *self,
    {
        Content(self.0.clone())
    }
}

impl Clone for AttrValue {
    fn clone(&self) -> (r: Self)
        ensures
            r == *self,
    {
        AttrValue(self.0.clone())
    }
}

impl Clone for AttrKey {
    fn clone(&self) -> (r: Self)
        ensures
            r == *self,
    {
        AttrKey(self.0.clone())
    }
}

impl Clone for HtmlBlock {
    fn clone(&self) -> (r: Self)
        ensures
            r == *self,
    {
        HtmlBlock(self.0.clone())
    }
}

impl Clone for TagName {
    fn clone(&self) -> (r: Self)
        ensures
            r == *self,
    {
        TagName(self.0.clone())
    }
}

impl PartialEq for Content {
    fn eq(&self, other: &Self) -> (r: bool) {
        str_eq(self.0.as_str(), other.0.as_str())
    }
}

impl vstd::std_specs::cmp::PartialEqSpecImpl for Content {
    open spec fn obeys_eq_spec() -> bool {
        true
    }

    open spec fn eq_spec(&self, other: &Self) -> bool {
        self@ == other@
    }
}

impl Eq for Content {

}

impl PartialEq for AttrValue {
    fn eq(&self, other: &Self) -> (r: bool) {
        str_eq(self.0.as_str(), other.0.as_str())
    }
}

impl vstd::std_specs::cmp::PartialEqSpecImpl for AttrValue {
    open spec fn obeys_eq_spec() -> bool {
        true
    }

    open spec fn eq_spec(&self, other: &Self) -> bool {
        self@ == other@
    }
}

impl Eq for AttrValue {

}

impl PartialEq for AttrKey {
    fn eq(&self, other: &Self) -> (r: bool) {
        str_eq(self.0.as_str(), other.0.as_str())
    }
}

impl vstd::std_specs::cmp::PartialEqSpecImpl for AttrKey {
    open spec fn obeys_eq_spec() -> bool {
        true
    }

    open spec fn eq_spec(&self, other: &Self) -> bool {
        self@ == other@
    }
}

impl Eq for AttrKey {

}

impl PartialEq for HtmlBlock {
    fn eq(&self, other: &Self) -> (r: bool) {
        str_eq(self.0.as_str(), other.0.as_str())
    }
}

impl vstd::std_specs::cmp::PartialEqSpecImpl for HtmlBlock {
    open spec fn obeys_eq_spec() -> bool {
        true
    }

    open spec fn eq_spec(&self, other: &Self) -> bool {
        self@ == other@
    }
}

impl Eq for HtmlBlock {

}

impl PartialEq for TagName {
    fn eq(&self, other: &Self) -> (r: bool) {
        str_eq(self.0.as_str(), other.0.as_str())
    }
}

impl vstd::std_specs::cmp::PartialEqSpecImpl for TagName {
    open spec fn obeys_eq_spec() -> bool {
        true
    }

    open spec fn eq_spec(&self, other: &Self) -> bool {
        self@ == other@
    }
}

impl Eq for TagName {

}

/// Character-by-character string equality.
pub(crate) fn str_eq(a: &str, b: &str) -> (r: bool)
    ensures
        r == (a@ == b@),
{
    let an = a.unicode_len();
    let bn = b.unicode_len();
    if an != bn {
        return false;
    }
    let mut i: usize = 0;
    while i < an
        invariant
            an == a@.len(),
            bn == b@.len(),
            an == bn,
            i <= an,
            forall|j: int| 0 <= j < i ==> a@[j] == b@[j],
        decreases an - i,
    {
        if a.get_char(i) != b.get_char(i) {
            return false;
        }
        i = i + 1;
    }
    proof {
        assert(a@ =~= b@);
    }
    true
}

impl AttrKey {
    /// Wrap a trusted attribute name verbatim.
    pub fn from_str(key: &str) -> (r: Self)
        ensures
            r@ == key@,
    {
        AttrKey(key.to_owned())
    }

    pub fn as_str(&self) -> (r: &str)
        ensures
            r@ == self@,
    {
        self.0.as_str()
    }
}

impl HtmlBlock {
    /// Wrap a trusted markup block verbatim.
    pub fn from_str(block: &str) -> (r: Self)
        ensures
            r@ == block@,
    {
        HtmlBlock(block.to_owned())
    }

    pub fn as_str(&self) -> (r: &str)
        ensures
            r@ == self@,
    {
        self.0.as_str()
    }
}

impl TagName {
    /// Wrap a trusted tag name verbatim.
    pub(crate) fn from_str(tag: &str) -> (r: Self)
        ensures
            r@ == tag@,
    {
        TagName(tag.to_owned())
    }

    pub fn as_str(&self) -> (r: &str)
        ensures
            r@ == self@,
    {
        self.0.as_str()
    }
}


/// A value constructible from arbitrary text only by normalizing it
/// under a ruleset and then escaping it.
pub trait SafeString: Sized + View<V = Seq<char>> {
    fn from_str<T: Rules>(s: &str, rule: &T) -> (r: Self)
        requires
            rule.apply_req(),
        ensures
            r@ == escape_seq(rule.apply_spec(s@)),
    ;

    fn as_str(&self) -> (r: &str)
        ensures
            r@ == self@,
    ;
}

impl SafeString for Content {
    fn from_str<T: Rules>(s: &str, rule: &T) -> (r: Self) {
        let typo = rule.apply(s);
        Content(escape_html_chars(typo.as_str()))
    }

    fn as_str(&self) -> (r: &str) {
        self.0.as_str()
    }
}

impl SafeString for AttrValue {
    fn from_str<T: Rules>(s: &str, rule: &T) -> (r: Self) {
        let typo = rule.apply(s);
        AttrValue(escape_html_chars(typo.as_str()))
    }

    fn as_str(&self) -> (r: &str) {
        self.0.as_str()
    }
}

} // verus!
