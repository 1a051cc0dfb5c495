//! Functions for escaping XML special characters.
use std::borrow::Cow;
use std::collections::HashMap;
use vstd::prelude::*;
use vstd::utf8::*;
use vstd::string::StringSliceAdditionalSpecFns;
use crate::utf8_offsets::{lemma_encode_concat, lemma_prefix_offset_is_boundary};

verus! {

/// Where escaped text is going to stand.
#[derive(Clone, Copy, PartialEq, Eq, Structural)]
pub enum Context {
    /// Inside a quoted attribute value.
    Attribute,
    /// Inside character data between tags.
    Pcdata,
}

pub open spec fn lt_entity() -> Seq<char> {
    seq!['&', 'l', 't', ';']
}

pub open spec fn gt_entity() -> Seq<char> {
    seq!['&', 'g', 't', ';']
}

pub open spec fn quot_entity() -> Seq<char> {
    seq!['&', 'q', 'u', 'o', 't', ';']
}

pub open spec fn apos_entity() -> Seq<char> {
    seq!['&', 'a', 'p', 'o', 's', ';']
}

pub open spec fn amp_entity() -> Seq<char> {
    seq!['&', 'a', 'm', 'p', ';']
}

pub open spec fn newline_entity() -> Seq<char> {
    seq!['&', '#', 'x', 'A', ';']
}

pub open spec fn return_entity() -> Seq<char> {
    seq!['&', '#', 'x', 'D', ';']
}

/// The built-in replacement of `c` in the given context, if `c` is one of the
/// characters that the context always escapes.
pub open spec fn fixed_escape(ctx: Context, c: char) -> Option<Seq<char>> {
    if c == '<' {
        Some(lt_entity())
    } else if c == '&' {
        Some(amp_entity())
    } else if ctx == Context::Pcdata {
        None
    } else if c == '>' {
        Some(gt_entity())
    } else if c == '"' {
        Some(quot_entity())
    } else if c == '\'' {
        Some(apos_entity())
    } else if c == '\n' {
        Some(newline_entity())
    } else if c == '\r' {
        Some(return_entity())
    } else {
        None
    }
}

/// What replaces `c`: its built-in escape, else its entry in `extra`, else
/// nothing (the character is kept).
pub open spec fn replacement(ctx: Context, c: char, extra: Map<char, &'static str>) -> Option<
    Seq<char>,
> {
    match fixed_escape(ctx, c) {
        Some(r) => Some(r),
        None => if extra.contains_key(c) {
            Some(extra[c]@)
        } else {
            None
        },
    }
}

/// The text that `c` contributes to the output.
pub open spec fn piece(ctx: Context, c: char, extra: Map<char, &'static str>) -> Seq<char> {
    match replacement(ctx, c, extra) {
        Some(r) => r,
        None => seq![c],
    }
}

/// The escaped form of `s`: each character replaced by its piece, left to right.
pub open spec fn escaped(ctx: Context, s: Seq<char>, extra: Map<char, &'static str>) -> Seq<char>
    decreases s.len(),
{
    if s.len() == 0 {
        Seq::empty()
    } else {
        escaped(ctx, s.drop_last(), extra) + piece(ctx, s.last(), extra)
    }
}

/// Whether some character of `s` is replaced.
pub open spec fn needs_escaping(ctx: Context, s: Seq<char>, extra: Map<char, &'static str>) -> bool {
    exists|i: int| 0 <= i < s.len() && (#[trigger] replacement(ctx, s[i], extra)) is Some
}

/// Relies on `HashMap::get`: it returns the value stored under the key, and
/// `None` when the key is absent.
#[verifier::external_body]
fn lookup(extra: &HashMap<char, &'static str>, c: char) -> (r: Option<&'static str>)
    ensures
        match r {
            Some(v) => extra@.contains_key(c) && extra@[c] == v,
            None => !extra@.contains_key(c),
        },
{
    extra.get(&c).copied()
}

/// Relies on `char::len_utf8`: the number of bytes of the character's UTF-8 encoding.
pub assume_specification[ char::len_utf8 ](c: char) -> (r: usize)
    ensures
        r == encode_scalar(c as u32).len(),
;

/// Relies on `String::with_capacity`: the new string is empty.
pub assume_specification[ String::with_capacity ](capacity: usize) -> (r: String)
    ensures
        r@ == Seq::<char>::empty(),
;

/// Relies on `String::push_str`: the text is appended.
pub assume_specification[ String::push_str ](s: &mut String, t: &str)
    ensures
        final(s)@ == old(s)@ + t@,
;

/// Relies on `String::push`: the character is appended.
pub assume_specification[ String::push ](s: &mut String, c: char)
    ensures
        final(s)@ == old(s)@.push(c),
;

/// The decision for one character: kept as it is, or replaced by a text.
enum Value {
    Char(char),
    Str(&'static str),
}

impl Value {
    spec fn piece(self) -> Seq<char> {
        match self {
            Value::Char(c) => seq![c],
            Value::Str(s) => s@,
        }
    }

    /// Whether this decision is the one that `replacement` gives for `c`.
    spec fn decides(self, ctx: Context, c: char, extra: Map<char, &'static str>) -> bool {
        match self {
            Value::Char(k) => k == c && replacement(ctx, c, extra) is None,
            Value::Str(s) => replacement(ctx, c, extra) == Some(s@),
        }
    }

    fn dispatch_for_attribute(c: char, extra: &HashMap<char, &'static str>) -> (r: Value)
        ensures
            r.decides(Context::Attribute, c, extra@),
    {
        proof {
            reveal_strlit("&lt;");
            reveal_strlit("&gt;");
            reveal_strlit("&quot;");
            reveal_strlit("&apos;");
            reveal_strlit("&amp;");
            reveal_strlit("&#xA;");
            reveal_strlit("&#xD;");
            assert("&lt;"@ =~= lt_entity());
            assert("&gt;"@ =~= gt_entity());
            assert("&quot;"@ =~= quot_entity());
            assert("&apos;"@ =~= apos_entity());
            assert("&amp;"@ =~= amp_entity());
            assert("&#xA;"@ =~= newline_entity());
            assert("&#xD;"@ =~= return_entity());
        }
        match c {
            '<' => Value::Str("&lt;"),
            '>' => Value::Str("&gt;"),
            '"' => Value::Str("&quot;"),
            '\'' => Value::Str("&apos;"),
            '&' => Value::Str("&amp;"),
            '\n' => Value::Str("&#xA;"),
            '\r' => Value::Str("&#xD;"),
            _ => match lookup(extra, c) {
                Some(value) => Value::Str(value),
                None => Value::Char(c),
            },
        }
    }

    fn dispatch_for_pcdata(c: char, extra: &HashMap<char, &'static str>) -> (r: Value)
        ensures
            r.decides(Context::Pcdata, c, extra@),
    {
        proof {
            reveal_strlit("&lt;");
            reveal_strlit("&amp;");
            assert("&lt;"@ =~= lt_entity());
            assert("&amp;"@ =~= amp_entity());
        }
        match c {
            '<' => Value::Str("&lt;"),
            '&' => Value::Str("&amp;"),
            _ => match lookup(extra, c) {
                Some(value) => Value::Str(value),
                None => Value::Char(c),
            },
        }
    }

    fn dispatch(ctx: Context, c: char, extra: &HashMap<char, &'static str>) -> (r: Value)
        ensures
            r.decides(ctx, c, extra@),
    {
        match ctx {
            Context::Attribute => Value::dispatch_for_attribute(c, extra),
            Context::Pcdata => Value::dispatch_for_pcdata(c, extra),
        }
    }
}

/// The output built so far: still the untouched input, or a copy that has
/// diverged from it.
enum Process<'a> {
    Borrowed(&'a str),
    Owned(String),
}

impl<'a> Process<'a> {
    /// The output so far, given the characters of the input read so far.
    spec fn produced(&self, scanned: Seq<char>) -> Seq<char> {
        match self {
            Process::Borrowed(_) => scanned,
            Process::Owned(o) => o@,
        }
    }

    /// Folds the decision for character `c`, which starts at byte `i` of the
    /// input, into the output. `scanned` are the characters before it.
    fn process(&mut self, i: usize, next: Value, Ghost(scanned): Ghost<Seq<char>>, Ghost(c): Ghost<char>)
        requires
            next is Char ==> next->Char_0 == c,
            *old(self) is Borrowed ==> ({
                let b = old(self)->Borrowed_0;
                &&& scanned.len() < b@.len()
                &&& b@.subrange(0, scanned.len() as int) == scanned
                &&& b@[scanned.len() as int] == c
                &&& i == encode_utf8(scanned).len()
            }),
        ensures
            final(self).produced(scanned.push(c)) == old(self).produced(scanned) + next.piece(),
            *final(self) is Borrowed <==> (*old(self) is Borrowed && next is Char),
            *final(self) is Borrowed ==> *final(self) == *old(self),
    {
        match next {
            Value::Str(s) => match self {
                Process::Owned(o) => o.push_str(s),
                Process::Borrowed(b) => {
                    let b: &'a str = *b;
                    proof {
                        lemma_prefix_offset_is_boundary(b@, scanned.len() as int);
                    }
                    let (head, _) = b.split_at(i);
                    proof {
                        let k = scanned.len() as int;
                        lemma_encode_concat(b@.subrange(0, k), b@.subrange(k, b@.len() as int));
                        assert(b@ =~= b@.subrange(0, k) + b@.subrange(k, b@.len() as int));
                        assert(head.spec_bytes() =~= encode_utf8(scanned));
                        encode_utf8_decode_utf8(head@);
                        encode_utf8_decode_utf8(scanned);
                    }
                    let mut r = String::with_capacity(b.len().saturating_add(s.len()));
                    r.push_str(head);
                    r.push_str(s);
                    *self = Process::Owned(r);
                },
            },
            Value::Char(ch) => match self {
                Process::Borrowed(_) => {},
                Process::Owned(o) => o.push(ch),
            },
        }
    }

    fn into_result(self) -> (r: Cow<'a, str>)
        ensures
            match self {
                Process::Borrowed(b) => r == Cow::<'a, str>::Borrowed(b),
                Process::Owned(o) => r == Cow::<'a, str>::Owned(o),
            },
    {
        match self {
            Process::Borrowed(b) => Cow::Borrowed(b),
            Process::Owned(o) => Cow::Owned(o),
        }
    }
}

/// Escapes `s` for the given context, copying only once a character needs
/// replacing.
pub fn escape_str<'a>(s: &'a str, ctx: Context, extra: &HashMap<char, &'static str>) -> (r: Cow<'a, str>)
    ensures
        r@ == escaped(ctx, s@, extra@),
        r is Borrowed <==> !needs_escaping(ctx, s@, extra@),
        r is Borrowed ==> r == Cow::<'a, str>::Borrowed(s),
{
    let mut p = Process::Borrowed(s);
    let mut i: usize = 0;
    let ghost mut k: int = 0;
    let total: usize = s.as_bytes().len();
    proof {
        assert(s@.subrange(0, 0) =~= Seq::<char>::empty());
    }
    for c in it: s.chars()
        invariant
            it.seq() == s@,
            k == it.index(),
            total == encode_utf8(s@).len(),
            0 <= k <= s@.len(),
            i == encode_utf8(s@.subrange(0, k)).len(),
            p.produced(s@.subrange(0, k)) == escaped(ctx, s@.subrange(0, k), extra@),
            p is Borrowed <==> !needs_escaping(ctx, s@.subrange(0, k), extra@),
            p is Borrowed ==> p == Process::Borrowed(s),
    {
        let ghost scanned = s@.subrange(0, k);
        assert(c == s@[k]);
        let next = Value::dispatch(ctx, c, extra);
        proof {
            lemma_prefix_offset_is_boundary(s@, k + 1);
            lemma_encode_concat(scanned, seq![c]);
            assert(s@.subrange(0, k + 1) =~= scanned + seq![c]);
            assert(encode_utf8(seq![c]) =~= encode_scalar(c as u32)) by {
                assert(seq![c][0] == c);
                assert(seq![c].drop_first() =~= Seq::<char>::empty());
                assert(encode_utf8(Seq::<char>::empty()) =~= Seq::<u8>::empty());
            }
            lemma_prefix_offset_is_boundary(s@, s@.len() as int);
            assert(s@.subrange(0, s@.len() as int) =~= s@);
            assert(encode_utf8(s@.subrange(0, k + 1)).len() == i + encode_scalar(c as u32).len());
        }
        let w = c.len_utf8();
        p.process(i, next, Ghost(scanned), Ghost(c));
        i = i + w;
        proof {
            let pre = s@.subrange(0, k + 1);
            assert(pre.drop_last() =~= scanned);
            assert(pre.last() == c);
            if needs_escaping(ctx, scanned, extra@) {
                let j = choose|j: int| 0 <= j < scanned.len() && (#[trigger] replacement(ctx, scanned[j], extra@)) is Some;
                assert(pre[j] == scanned[j]);
            }
            if needs_escaping(ctx, pre, extra@) && !needs_escaping(ctx, scanned, extra@) {
                let j = choose|j: int| 0 <= j < pre.len() && (#[trigger] replacement(ctx, pre[j], extra@)) is Some;
                if j < k {
                    assert(pre[j] == scanned[j]);
                }
            }
            if next is Str {
                assert(replacement(ctx, pre[k], extra@) is Some);
            }
            k = k + 1;
        }
    }
    proof {
        assert(s@.subrange(0, k) =~= s@);
    }
    p.into_result()
}

/// Escapes common XML characters inside an attribute value: `<`, `>`, `"`,
/// `'`, `&`, newline and carriage return become entities; any other character
/// found in `extra` becomes the text mapped to it.
///
/// Does not allocate when no character needs replacing.
pub fn escape_str_attribute<'a>(s: &'a str, extra: &HashMap<char, &'static str>) -> (r: Cow<'a, str>)
    ensures
        r@ == escaped(Context::Attribute, s@, extra@),
        r is Borrowed <==> !needs_escaping(Context::Attribute, s@, extra@),
        r is Borrowed ==> r == Cow::<'a, str>::Borrowed(s),
{
    escape_str(s, Context::Attribute, extra)
}

/// Escapes common XML characters inside character data: `<` and `&` become
/// entities; any other character found in `extra` becomes the text mapped to it.
/// The result is safe inside character data but not inside attribute values.
///
/// Does not allocate when no character needs replacing.
pub fn escape_str_pcdata<'a>(s: &'a str, extra: &HashMap<char, &'static str>) -> (r: Cow<'a, str>)
    ensures
        r@ == escaped(Context::Pcdata, s@, extra@),
        r is Borrowed <==> !needs_escaping(Context::Pcdata, s@, extra@),
        r is Borrowed ==> r == Cow::<'a, str>::Borrowed(s),
{
    escape_str(s, Context::Pcdata, extra)
}

/// Escaping a concatenation escapes each part on its own: the output is the
/// escaped first part followed by the escaped second part.
pub proof fn lemma_escaped_concat(
    ctx: Context,
    a: Seq<char>,
    b: Seq<char>,
    extra: Map<char, &'static str>,
)
    ensures
        escaped(ctx, a + b, extra) == escaped(ctx, a, extra) + escaped(ctx, b, extra),
    decreases b.len(),
{
    if b.len() == 0 {
        assert(a + b =~= a);
        assert(escaped(ctx, a, extra) + escaped(ctx, b, extra) =~= escaped(ctx, a, extra));
    } else {
        lemma_escaped_concat(ctx, a, b.drop_last(), extra);
        assert((a + b).drop_last() =~= a + b.drop_last());
        assert((a + b).last() == b.last());
        assert(escaped(ctx, a, extra) + (escaped(ctx, b.drop_last(), extra) + piece(ctx, b.last(), extra))
            =~= (escaped(ctx, a, extra) + escaped(ctx, b.drop_last(), extra)) + piece(ctx, b.last(), extra));
    }
}

/// A text of one character escapes to that character's piece.
pub proof fn lemma_escaped_single(ctx: Context, c: char, extra: Map<char, &'static str>)
    ensures
        escaped(ctx, seq![c], extra) == piece(ctx, c, extra),
{
    let s = seq![c];
    assert(s.drop_last() =~= Seq::<char>::empty());
    assert(s.last() == c);
    assert(escaped(ctx, Seq::<char>::empty(), extra) == Seq::<char>::empty());
    assert(Seq::<char>::empty() + piece(ctx, c, extra) =~= piece(ctx, c, extra));
}

/// A text in which no character is one that the context escapes, and none is
/// a key of `extra`, is its own escaped form and needs no copy.
pub proof fn lemma_no_escape_identity(ctx: Context, s: Seq<char>, extra: Map<char, &'static str>)
    requires
        forall|i: int|
            0 <= i < s.len() ==> (#[trigger] fixed_escape(ctx, s[i])) is None
                && !extra.contains_key(s[i]),
    ensures
        escaped(ctx, s, extra) == s,
        !needs_escaping(ctx, s, extra),
    decreases s.len(),
{
    if s.len() > 0 {
        let t = s.drop_last();
        assert forall|i: int| 0 <= i < t.len() implies (#[trigger] fixed_escape(ctx, t[i])) is None
            && !extra.contains_key(t[i]) by {
            assert(t[i] == s[i]);
        }
        lemma_no_escape_identity(ctx, t, extra);
        assert(fixed_escape(ctx, s[s.len() - 1]) is None);
        assert(t.push(s.last()) =~= s);
    }
    assert forall|i: int| 0 <= i < s.len() implies !((#[trigger] replacement(ctx, s[i], extra)) is Some) by {
        assert(fixed_escape(ctx, s[i]) is None);
    }
}

/// Entries of `extra` for a character that the context escapes itself have
/// no effect: that character always becomes its built-in entity, and any text
/// escapes the same with or without such an entry.
pub proof fn lemma_fixed_precedence(
    ctx: Context,
    c: char,
    s: Seq<char>,
    extra: Map<char, &'static str>,
)
    requires
        fixed_escape(ctx, c) is Some,
    ensures
        escaped(ctx, seq![c], extra) == fixed_escape(ctx, c)->0,
        escaped(ctx, s, extra) == escaped(ctx, s, extra.remove(c)),
    decreases s.len(),
{
    lemma_escaped_single(ctx, c, extra);
    if s.len() > 0 {
        lemma_fixed_precedence(ctx, c, s.drop_last(), extra);
        assert(piece(ctx, s.last(), extra) == piece(ctx, s.last(), extra.remove(c)));
    }
}

/// A `>` becomes `&gt;` in an attribute value but stays as it is in character
/// data (unless `extra` maps it): around it, each context escapes the rest of
/// the text as it would alone.
pub proof fn lemma_context_difference(a: Seq<char>, b: Seq<char>, extra: Map<char, &'static str>)
    requires
        !extra.contains_key('>'),
    ensures
        escaped(Context::Attribute, a + seq!['>'] + b, extra) == escaped(Context::Attribute, a, extra)
            + gt_entity() + escaped(Context::Attribute, b, extra),
        escaped(Context::Pcdata, a + seq!['>'] + b, extra) == escaped(Context::Pcdata, a, extra)
            + seq!['>'] + escaped(Context::Pcdata, b, extra),
{
    lemma_escaped_concat(Context::Attribute, a + seq!['>'], b, extra);
    lemma_escaped_concat(Context::Attribute, a, seq!['>'], extra);
    lemma_escaped_concat(Context::Pcdata, a + seq!['>'], b, extra);
    lemma_escaped_concat(Context::Pcdata, a, seq!['>'], extra);
    lemma_escaped_single(Context::Attribute, '>', extra);
    lemma_escaped_single(Context::Pcdata, '>', extra);
}

} // verus!
