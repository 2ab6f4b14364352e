use crate::dispatch::DispatchError;
use crate::payload::{NotificationPayload, PayloadModel};
use vstd::prelude::*;
use vstd::string::StringExecFns;

verus! {

/// Declares serde_json::Error, the failure that the serde_json calls below may
/// return; it is carried through and never looked into.
#[verifier::external_type_specification]
#[verifier::external_body]
pub struct ExJsonError(serde_json::Error);

/// Lower-case hexadecimal digit of `n`, for `n < 16`.
pub open spec fn hex_digit(n: u32) -> char {
    seq!['0', '1', '2', '3', '4', '5', '6', '7', '8', '9', 'a', 'b', 'c', 'd', 'e', 'f'][n as int]
}

/// How one character stands inside a JSON string literal: quote, backslash and
/// the control characters are escaped, everything else stands for itself.
pub open spec fn escaped_char(c: char) -> Seq<char> {
    if c == '"' {
        seq!['\\', '"']
    } else if c == '\\' {
        seq!['\\', '\\']
    } else if c == '\x08' {
        seq!['\\', 'b']
    } else if c == '\t' {
        seq!['\\', 't']
    } else if c == '\n' {
        seq!['\\', 'n']
    } else if c == '\x0c' {
        seq!['\\', 'f']
    } else if c == '\r' {
        seq!['\\', 'r']
    } else if (c as u32) < 0x20 {
        seq!['\\', 'u', '0', '0', hex_digit((c as u32) / 16), hex_digit((c as u32) % 16)]
    } else {
        seq![c]
    }
}

/// The characters of `s`, each escaped.
pub open spec fn escaped(s: Seq<char>) -> Seq<char>
    decreases s.len(),
{
    if s.len() == 0 {
        Seq::empty()
    } else {
        escaped_char(s[0]) + escaped(s.drop_first())
    }
}

/// The JSON string literal that denotes `s`.
pub open spec fn json_quoted(s: Seq<char>) -> Seq<char> {
    seq!['"'] + escaped(s) + seq!['"']
}

/// The wire form of a payload: a JSON object with the fields `api_key_name`,
/// `title` and `message`, in that order, without whitespace.
pub open spec fn wire_form(p: PayloadModel) -> Seq<char> {
    "{\"api_key_name\":"@ + json_quoted(p.0) + ",\"title\":"@ + json_quoted(p.1)
        + ",\"message\":"@ + json_quoted(p.2) + "}"@
}

/// Relies on serde_json::to_string on a `str`: it writes the string literal
/// through `format_escaped_str` into a `Vec`, which cannot fail.
#[verifier::external_body]
fn json_quote(s: &str) -> (r: Result<String, serde_json::Error>)
    ensures
        r is Ok,
        r matches Ok(q) ==> q@ == json_quoted(s@),
{
    serde_json::to_string(s)
}

/// Encodes a payload in its wire form.
pub fn to_wire(p: &NotificationPayload) -> (r: Result<String, DispatchError>)
    ensures
        r is Ok,
        r matches Ok(w) ==> w@ == wire_form(p@),
{
    let key = match json_quote(p.api_key_name.as_str()) {
        Ok(q) => q,
        Err(_) => return Err(DispatchError::SerializationError),
    };
    let title = match json_quote(p.title.as_str()) {
        Ok(q) => q,
        Err(_) => return Err(DispatchError::SerializationError),
    };
    let message = match json_quote(p.message.as_str()) {
        Ok(q) => q,
        Err(_) => return Err(DispatchError::SerializationError),
    };
    let mut w = String::from_str("{\"api_key_name\":");
    w.append(key.as_str());
    w.append(",\"title\":");
    w.append(title.as_str());
    w.append(",\"message\":");
    w.append(message.as_str());
    w.append("}");
    Ok(w)
}


/// Index of the quote that closes a string literal whose contents start at
/// `i`: a backslash always takes the next character with it.
pub open spec fn closing_quote(s: Seq<char>, i: int) -> Option<int>
    decreases s.len() - i,
{
    if i < 0 || i >= s.len() {
        None
    } else if s[i] == '"' {
        Some(i)
    } else if s[i] == '\\' {
        if i + 2 <= s.len() {
            closing_quote(s, i + 2)
        } else {
            None
        }
    } else {
        closing_quote(s, i + 1)
    }
}

/// What a text parses to: the payload whose wire form it is, if there is one.
pub open spec fn parsed(s: Seq<char>) -> Option<PayloadModel> {
    if exists|p: PayloadModel| wire_form(p) == s {
        Some(choose|p: PayloadModel| wire_form(p) == s)
    } else {
        None
    }
}

proof fn lemma_hex_digit(n: u32)
    requires
        n < 16,
    ensures
        hex_digit(n) != '"',
        hex_digit(n) != '\\',
        forall|m: u32| m < 16 && hex_digit(m) == hex_digit(n) ==> m == n,
{
}

/// Scanning over one escaped character never stops inside it.
proof fn lemma_scan_escaped_char(s: Seq<char>, i: int, c: char)
    requires
        0 <= i,
        i + escaped_char(c).len() < s.len(),
        s.subrange(i, i + escaped_char(c).len()) == escaped_char(c),
    ensures
        closing_quote(s, i) == closing_quote(s, i + escaped_char(c).len()),
{
    let e = escaped_char(c);
    assert(s[i] == e[0]);
    if e.len() == 6 {
        lemma_hex_digit((c as u32) / 16);
        lemma_hex_digit((c as u32) % 16);
        assert(s[i + 2] == e[2]);
        assert(s[i + 3] == e[3]);
        assert(s[i + 4] == e[4]);
        assert(s[i + 5] == e[5]);
        assert(closing_quote(s, i + 5) == closing_quote(s, i + 6));
        assert(closing_quote(s, i + 4) == closing_quote(s, i + 5));
        assert(closing_quote(s, i + 3) == closing_quote(s, i + 4));
        assert(closing_quote(s, i + 2) == closing_quote(s, i + 3));
    }
}

/// Scanning over escaped contents stops at the quote that follows them.
proof fn lemma_scan_escaped(s: Seq<char>, i: int, t: Seq<char>)
    requires
        0 <= i,
        i + escaped(t).len() < s.len(),
        s.subrange(i, i + escaped(t).len()) == escaped(t),
        s[i + escaped(t).len()] == '"',
    ensures
        closing_quote(s, i) == Some(i + escaped(t).len()),
    decreases t.len(),
{
    if t.len() > 0 {
        let e = escaped_char(t[0]);
        let rest = escaped(t.drop_first());
        let whole = s.subrange(i, i + escaped(t).len());
        assert(escaped(t) == e + rest);
        assert forall|k: int| 0 <= k < rest.len() implies s[i + e.len() + k] == rest[k] by {
            assert(s[i + e.len() + k] == whole[e.len() + k]);
        }
        assert forall|k: int| 0 <= k < e.len() implies s[i + k] == e[k] by {
            assert(s[i + k] == whole[k]);
        }
        assert(s.subrange(i, i + e.len()) =~= e);
        assert(s.subrange(i + e.len(), i + e.len() + rest.len()) =~= rest);
        lemma_scan_escaped_char(s, i, t[0]);
        lemma_scan_escaped(s, i + e.len(), t.drop_first());
    }
}

proof fn lemma_escaped_char_nonempty(c: char)
    ensures
        escaped_char(c).len() >= 1,
        escaped_char(c).len() > 1 ==> escaped_char(c)[0] == '\\',
{
}

/// Distinct characters have escapes that differ before either ends.
proof fn lemma_escaped_char_prefix(c: char, d: char, r: Seq<char>, u: Seq<char>)
    requires
        escaped_char(c) + r == escaped_char(d) + u,
    ensures
        c == d,
        r == u,
{
    let x = escaped_char(c) + r;
    let e = escaped_char(c);
    let f = escaped_char(d);
    assert forall|k: int| 0 <= k < e.len() implies x[k] == e[k] by {}
    assert forall|k: int| 0 <= k < f.len() implies x[k] == f[k] by {}
    lemma_escaped_char_nonempty(c);
    lemma_escaped_char_nonempty(d);
    if e.len() == 1 || f.len() == 1 {
        assert(x[0] == e[0] && x[0] == f[0]);
    } else {
        assert(x[1] == e[1] && x[1] == f[1]);
        if e.len() == 6 && f.len() == 6 {
            let cu = c as u32;
            let du = d as u32;
            lemma_hex_digit(cu / 16);
            lemma_hex_digit(cu % 16);
            lemma_hex_digit(du / 16);
            lemma_hex_digit(du % 16);
            assert(x[4] == e[4] && x[4] == f[4]);
            assert(x[5] == e[5] && x[5] == f[5]);
            assert(cu / 16 == du / 16);
            assert(cu % 16 == du % 16);
            assert(cu == du);
        }
    }
    assert(c == d);
    assert(r =~= x.skip(e.len() as int));
    assert(u =~= x.skip(f.len() as int));
}

/// Escaping loses nothing: equal escapes come from equal texts.
pub proof fn lemma_escaped_injective(a: Seq<char>, b: Seq<char>)
    requires
        escaped(a) == escaped(b),
    ensures
        a == b,
    decreases a.len(),
{
    if a.len() > 0 {
        lemma_escaped_char_nonempty(a[0]);
    }
    if b.len() > 0 {
        lemma_escaped_char_nonempty(b[0]);
    }
    if a.len() == 0 || b.len() == 0 {
        assert(escaped(a).len() == 0 && escaped(b).len() == 0);
    } else {
        lemma_escaped_char_prefix(a[0], b[0], escaped(a.drop_first()), escaped(b.drop_first()));
        lemma_escaped_injective(a.drop_first(), b.drop_first());
        assert(a =~= seq![a[0]] + a.drop_first());
        assert(b =~= seq![b[0]] + b.drop_first());
    }
}

/// Where the three string literals stand in a wire form.
proof fn lemma_wire_layout(p: PayloadModel)
    ensures
        ({
            let w = wire_form(p);
            let q0 = json_quoted(p.0);
            let q1 = json_quoted(p.1);
            let q2 = json_quoted(p.2);
            let o0 = "{\"api_key_name\":"@.len() as int;
            let o1 = o0 + q0.len() + ",\"title\":"@.len();
            let o2 = o1 + q1.len() + ",\"message\":"@.len();
            &&& w.subrange(o0, o0 + q0.len()) == q0
            &&& w.subrange(o1, o1 + q1.len()) == q1
            &&& w.subrange(o2, o2 + q2.len()) == q2
            &&& w.len() == o2 + q2.len() + "}"@.len()
        }),
{
    let w = wire_form(p);
    let q0 = json_quoted(p.0);
    let q1 = json_quoted(p.1);
    let q2 = json_quoted(p.2);
    let o0 = "{\"api_key_name\":"@.len() as int;
    let o1 = o0 + q0.len() + ",\"title\":"@.len();
    let o2 = o1 + q1.len() + ",\"message\":"@.len();
    assert(w.subrange(o0, o0 + q0.len()) =~= q0);
    assert(w.subrange(o1, o1 + q1.len()) =~= q1);
    assert(w.subrange(o2, o2 + q2.len()) =~= q2);
}

/// A string literal at `o` in `w` closes where its contents end.
proof fn lemma_literal_closes(w: Seq<char>, o: int, t: Seq<char>)
    requires
        0 <= o,
        o + json_quoted(t).len() <= w.len(),
        w.subrange(o, o + json_quoted(t).len()) == json_quoted(t),
    ensures
        w[o] == '"',
        closing_quote(w, o + 1) == Some(o + 1 + escaped(t).len()),
        w.subrange(o + 1, o + 1 + escaped(t).len()) == escaped(t),
{
    let q = json_quoted(t);
    let e = escaped(t);
    assert(w[o] == q[0]);
    assert(w[o + 1 + e.len()] == q[1 + e.len() as int]);
    assert forall|k: int| 0 <= k < e.len() implies w[o + 1 + k] == e[k] by {
        assert(w[o + 1 + k] == q[1 + k]);
    }
    assert(w.subrange(o + 1, o + 1 + e.len()) =~= e);
    lemma_scan_escaped(w, o + 1, t);
}

/// Two payloads with the same wire form are the same payload.
pub proof fn lemma_wire_form_injective(p: PayloadModel, q: PayloadModel)
    requires
        wire_form(p) == wire_form(q),
    ensures
        p == q,
{
    let w = wire_form(p);
    lemma_wire_layout(p);
    lemma_wire_layout(q);
    let o0 = "{\"api_key_name\":"@.len() as int;
    lemma_literal_closes(w, o0, p.0);
    lemma_literal_closes(w, o0, q.0);
    lemma_escaped_injective(p.0, q.0);
    let o1 = o0 + json_quoted(p.0).len() + ",\"title\":"@.len();
    lemma_literal_closes(w, o1, p.1);
    lemma_literal_closes(w, o1, q.1);
    lemma_escaped_injective(p.1, q.1);
    let o2 = o1 + json_quoted(p.1).len() + ",\"message\":"@.len();
    lemma_literal_closes(w, o2, p.2);
    lemma_literal_closes(w, o2, q.2);
    lemma_escaped_injective(p.2, q.2);
}

/// Parsing the wire form of a payload gives back that payload.
pub proof fn lemma_wire_round_trip(p: PayloadModel)
    ensures
        parsed(wire_form(p)) == Some(p),
{
    let q = choose|q: PayloadModel| wire_form(q) == wire_form(p);
    lemma_wire_form_injective(p, q);
}

/// Relies on serde_json::from_str into a `String`: a well-formed string
/// literal decodes to the text it denotes, with nothing left over.
#[verifier::external_body]
fn json_unquote(lit: &str) -> (r: Result<String, serde_json::Error>)
    ensures
        r is Err ==> forall|t: Seq<char>| #[trigger] json_quoted(t) != lit@,
        r matches Ok(v) ==> forall|t: Seq<char>| #[trigger] json_quoted(t) == lit@ ==> v@ == t,
{
    serde_json::from_str::<String>(lit)
}

/// Relies on String::push: appends one character.
#[verifier::external_body]
fn push_char(s: &mut String, c: char)
    ensures
        final(s)@ == old(s)@.push(c),
{
    s.push(c)
}

/// The characters of `s`, one by one.
fn chars_of(s: &str) -> (r: Vec<char>)
    ensures
        r@ == s@,
{
    let mut r: Vec<char> = Vec::new();
    for c in it: s.chars()
        invariant
            r@ == it.seq().take(it.index() as int),
    {
        r.push(c);
    }
    r
}

/// The characters of `cs` from `lo` up to `hi`, as a string.
fn string_of_range(cs: &Vec<char>, lo: usize, hi: usize) -> (r: String)
    requires
        lo <= hi <= cs.len(),
    ensures
        r@ == cs@.subrange(lo as int, hi as int),
{
    let mut r = String::new();
    let mut i: usize = lo;
    while i < hi
        invariant
            lo <= i <= hi <= cs.len(),
            r@ == cs@.subrange(lo as int, i as int),
        decreases hi - i,
    {
        push_char(&mut r, cs[i]);
        assert(r@ =~= cs@.subrange(lo as int, i + 1));
        i = i + 1;
    }
    r
}

/// Finds the quote that closes a string literal whose contents start at `from`.
fn find_closing(cs: &Vec<char>, from: usize) -> (r: Option<usize>)
    ensures
        match r {
            Some(j) => closing_quote(cs@, from as int) == Some(j as int),
            None => closing_quote(cs@, from as int) is None,
        },
        r matches Some(j) ==> from <= j < cs.len(),
{
    let mut i: usize = from;
    while i < cs.len()
        invariant
            from <= i,
            closing_quote(cs@, from as int) == closing_quote(cs@, i as int),
        decreases cs.len() - i,
    {
        if cs[i] == '"' {
            return Some(i);
        } else if cs[i] == '\\' {
            if cs.len() - i < 2 {
                return None;
            }
            i = i + 2;
        } else {
            i = i + 1;
        }
    }
    None
}

/// Reads the string literal that starts at `start`: its decoded text and the
/// index just past its closing quote.
fn literal_at(cs: &Vec<char>, start: usize) -> (r: Option<(String, usize)>)
    ensures
        r matches Some((_, n)) ==> start < n <= cs.len(),
        forall|t: Seq<char>|
            #![trigger json_quoted(t)]
            start + json_quoted(t).len() <= cs.len() && cs@.subrange(
                start as int,
                start + json_quoted(t).len(),
            ) == json_quoted(t) ==> (r matches Some((v, n)) && v@ == t && n == start
                + json_quoted(t).len()),
{
    if start >= cs.len() {
        return None;
    }
    let end = match find_closing(cs, start + 1) {
        Some(j) => j + 1,
        None => {
            assert forall|t: Seq<char>|
                #![trigger json_quoted(t)]
                start + json_quoted(t).len() <= cs.len() && cs@.subrange(
                    start as int,
                    start + json_quoted(t).len(),
                ) == json_quoted(t) implies false by {
                lemma_literal_closes(cs@, start as int, t);
            }
            return None;
        },
    };
    let lit = string_of_range(cs, start, end);
    assert forall|t: Seq<char>|
        #![trigger json_quoted(t)]
        start + json_quoted(t).len() <= cs.len() && cs@.subrange(
            start as int,
            start + json_quoted(t).len(),
        ) == json_quoted(t) implies end == start + json_quoted(t).len() && lit@ == json_quoted(
        t,
    ) by {
        lemma_literal_closes(cs@, start as int, t);
    }
    match json_unquote(lit.as_str()) {
        Ok(v) => Some((v, end)),
        Err(_) => None,
    }
}

/// Parses a wire form back into the payload it encodes. The three string
/// literals are located by position and decoded, and the text is accepted only
/// if encoding the result gives it back exactly: other spacing, field order or
/// escapes give `None`.
pub fn from_wire(s: &str) -> (r: Option<NotificationPayload>)
    ensures
        match r {
            Some(p) => parsed(s@) == Some(p@),
            None => parsed(s@) is None,
        },
{
    let cs = chars_of(s);
    let k1 = chars_of("{\"api_key_name\":").len();
    let k2 = chars_of(",\"title\":").len();
    let k3 = chars_of(",\"message\":").len();
    let ghost found = exists|p: PayloadModel| wire_form(p) == s@;
    let ghost q = choose|p: PayloadModel| wire_form(p) == s@;
    proof {
        if found {
            lemma_wire_layout(q);
        }
    }
    let (api_key_name, n0) = match literal_at(&cs, k1) {
        Some(x) => x,
        None => return None,
    };
    if k2 > cs.len() - n0 {
        return None;
    }
    let (title, n1) = match literal_at(&cs, n0 + k2) {
        Some(x) => x,
        None => return None,
    };
    if k3 > cs.len() - n1 {
        return None;
    }
    let (message, n2) = match literal_at(&cs, n1 + k3) {
        Some(x) => x,
        None => return None,
    };
    let p = NotificationPayload { api_key_name, title, message };
    let w = match to_wire(&p) {
        Ok(w) => w,
        Err(_) => return None,
    };
    if w == s.to_owned() {
        proof {
            lemma_wire_round_trip(p@);
        }
        Some(p)
    } else {
        None
    }
}

} // verus!
