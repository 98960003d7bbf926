use crate::ident::{spec_parse, EntityId};
use crate::message::{BodyV, EnvelopeV, MsgBody, MsgEnvelope, MsgPayload, PayloadV};
use crate::text::{dec_value, is_dec_digit, lemma_dec_value_prefix_le, push_char};
use vstd::prelude::*;
use vstd::string::StrSliceExecFns;

verus! {

/// The input line does not hold a well-formed envelope.
#[derive(Clone, Copy, Debug, PartialEq, Eq, Structural)]
pub struct DecodeError;

/// The whitespace JSON allows between tokens.
pub open spec fn is_ws(c: char) -> bool {
    c == ' ' || c == '\n' || c == '\t' || c == '\r'
}

/// The first position at or after `i` that holds no whitespace.
pub open spec fn sp_ws(s: Seq<char>, i: int) -> int
    decreases s.len() - i,
    when 0 <= i <= s.len()
{
    if i < s.len() && is_ws(s[i]) {
        sp_ws(s, i + 1)
    } else {
        i
    }
}

/// The token `l` read at position `i`: the position after it, or nothing.
pub open spec fn sp_lit(s: Seq<char>, i: int, l: Seq<char>) -> Option<int> {
    if 0 <= i && i + l.len() <= s.len() && s.subrange(i, i + l.len()) == l {
        Some(i + l.len())
    } else {
        None
    }
}

/// What a backslash escape denotes, for the escapes this codec reads.
pub open spec fn esc_of(c: char) -> Option<char> {
    if c == '"' {
        Some('"')
    } else if c == '\\' {
        Some('\\')
    } else if c == '/' {
        Some('/')
    } else if c == 'b' {
        Some('\u{8}')
    } else if c == 'f' {
        Some('\u{c}')
    } else if c == 'n' {
        Some('\n')
    } else if c == 'r' {
        Some('\r')
    } else if c == 't' {
        Some('\t')
    } else {
        None
    }
}

/// The content of a quoted string read from position `i`, which stands
/// just after the opening quote: the unescaped characters and the
/// position after the closing quote.  Raw control characters and
/// unknown escapes are refused.
pub open spec fn sp_qchars(s: Seq<char>, i: int) -> Option<(Seq<char>, int)>
    decreases s.len() - i,
    when 0 <= i <= s.len()
{
    if i >= s.len() {
        None
    } else {
        let c = s[i];
        if c == '"' {
            Some((Seq::empty(), i + 1))
        } else if c == '\\' {
            if i + 1 < s.len() {
                match esc_of(s[i + 1]) {
                    Some(e) => match sp_qchars(s, i + 2) {
                        Some((t, j)) => Some((seq![e] + t, j)),
                        None => None,
                    },
                    None => None,
                }
            } else {
                None
            }
        } else if (c as u32) < 32 {
            None
        } else {
            match sp_qchars(s, i + 1) {
                Some((t, j)) => Some((seq![c] + t, j)),
                None => None,
            }
        }
    }
}

/// A quoted string read at position `i`, opening quote included.
pub open spec fn sp_qstr(s: Seq<char>, i: int) -> Option<(Seq<char>, int)> {
    if 0 <= i < s.len() && s[i] == '"' {
        sp_qchars(s, i + 1)
    } else {
        None
    }
}

/// The first position at or after `i` that holds no decimal digit.
pub open spec fn sp_digits_end(s: Seq<char>, i: int) -> int
    decreases s.len() - i,
    when 0 <= i <= s.len()
{
    if i < s.len() && is_dec_digit(s[i]) {
        sp_digits_end(s, i + 1)
    } else {
        i
    }
}

/// The digit run that begins at `i` sits between `i` and the end of the
/// text, holds digits only, and ends at the first non-digit.
pub proof fn lemma_digits_end(s: Seq<char>, i: int)
    requires
        0 <= i <= s.len(),
    ensures
        i <= sp_digits_end(s, i) <= s.len(),
        forall|k: int| i <= k < sp_digits_end(s, i) ==> is_dec_digit(#[trigger] s[k]),
        sp_digits_end(s, i) < s.len() ==> !is_dec_digit(s[sp_digits_end(s, i)]),
    decreases s.len() - i,
{
    if i < s.len() && is_dec_digit(s[i]) {
        lemma_digits_end(s, i + 1);
    }
}

/// An unsigned number read at position `i`: at least one digit, and a
/// value that fits the given ceiling.
pub open spec fn sp_num(s: Seq<char>, i: int, ceiling: nat) -> Option<(nat, int)> {
    let e = sp_digits_end(s, i);
    if e == i {
        None
    } else {
        let v = dec_value(s.subrange(i, e));
        if v > ceiling {
            None
        } else {
            Some((v, e))
        }
    }
}

/// A participant identifier read as a quoted string at position `i`.
pub open spec fn sp_entity(s: Seq<char>, i: int) -> Option<(EntityId, int)> {
    match sp_qstr(s, i) {
        Some((t, j)) => match spec_parse(t) {
            Ok(id) => Some((id, j)),
            Err(_) => None,
        },
        None => None,
    }
}

/// Advances over whitespace.
fn ws(s: &str, i: usize) -> (r: usize)
    requires
        i <= s@.len(),
    ensures
        r as int == sp_ws(s@, i as int),
        i <= r <= s@.len(),
{
    let n = s.unicode_len();
    let mut k = i;
    loop
        invariant
            i <= k <= n,
            n == s@.len(),
            sp_ws(s@, i as int) == sp_ws(s@, k as int),
        decreases n - k,
    {
        if k < n {
            let c = s.get_char(k);
            if c == ' ' || c == '\n' || c == '\t' || c == '\r' {
                k += 1;
                continue ;
            }
        }
        return k;
    }
}

/// Reads the exact token `l` at position `i`.
fn lit(s: &str, i: usize, l: &str) -> (r: Option<usize>)
    requires
        i <= s@.len(),
    ensures
        match r {
            Some(j) => sp_lit(s@, i as int, l@) == Some(j as int) && i <= j <= s@.len(),
            None => sp_lit(s@, i as int, l@) is None,
        },
{
    let n = s.unicode_len();
    let m = l.unicode_len();
    if m > n - i {
        return None;
    }
    let mut k: usize = 0;
    while k < m
        invariant
            0 <= k <= m,
            i + m <= n,
            n == s@.len(),
            m == l@.len(),
            s@.subrange(i as int, i + k) == l@.subrange(0, k as int),
        decreases m - k,
    {
        let a = s.get_char(i + k);
        let b = l.get_char(k);
        if a != b {
            proof {
                assert(s@.subrange(i as int, i + l@.len())[k as int] == a);
                assert(s@.subrange(i as int, i + l@.len()) != l@);
            }
            return None;
        }
        proof {
            assert(s@.subrange(i as int, i + k + 1) =~= s@.subrange(i as int, i + k).push(a));
            assert(l@.subrange(0, k as int + 1) =~= l@.subrange(0, k as int).push(b));
        }
        k += 1;
    }
    proof {
        assert(s@.subrange(i as int, i + m) =~= s@.subrange(i as int, i + m as int));
        assert(l@.subrange(0, m as int) =~= l@);
    }
    Some(i + m)
}

/// Reads quoted-string content from just after the opening quote,
/// appending the unescaped characters.
fn qchars(s: &str, i: usize, out: &mut String) -> (r: Option<usize>)
    requires
        i <= s@.len(),
    ensures
        match r {
            Some(j) => {
                &&& i < j <= s@.len()
                &&& match sp_qchars(s@, i as int) {
                    Some((t, sj)) => j as int == sj && final(out)@ == old(out)@ + t,
                    None => false,
                }
            },
            None => sp_qchars(s@, i as int) is None,
        },
    decreases s@.len() - i,
{
    let n = s.unicode_len();
    if i >= n {
        return None;
    }
    let c = s.get_char(i);
    if c == '"' {
        proof {
            assert(old(out)@ + Seq::<char>::empty() =~= old(out)@);
        }
        return Some(i + 1);
    }
    if c == '\\' {
        if i + 1 >= n {
            return None;
        }
        let e = s.get_char(i + 1);
        let dec = if e == '"' {
            Some('"')
        } else if e == '\\' {
            Some('\\')
        } else if e == '/' {
            Some('/')
        } else if e == 'b' {
            Some('\u{8}')
        } else if e == 'f' {
            Some('\u{c}')
        } else if e == 'n' {
            Some('\n')
        } else if e == 'r' {
            Some('\r')
        } else if e == 't' {
            Some('\t')
        } else {
            None
        };
        match dec {
            Some(d) => {
                push_char(out, d);
                let ghost mid = out@;
                let r = qchars(s, i + 2, out);
                proof {
                    if let Some((t, _)) = sp_qchars(s@, i as int + 2) {
                        assert(old(out)@.push(d) + t =~= old(out)@ + (seq![d] + t));
                    }
                }
                return r;
            },
            None => {
                return None;
            },
        }
    }
    if (c as u32) < 32 {
        return None;
    }
    push_char(out, c);
    let r = qchars(s, i + 1, out);
    proof {
        if let Some((t, _)) = sp_qchars(s@, i as int + 1) {
            assert(old(out)@.push(c) + t =~= old(out)@ + (seq![c] + t));
        }
    }
    r
}

/// Reads a quoted string at position `i`.
fn qstr(s: &str, i: usize) -> (r: Option<(String, usize)>)
    requires
        i <= s@.len(),
    ensures
        match r {
            Some((t, j)) => {
                &&& i < j <= s@.len()
                &&& sp_qstr(s@, i as int) == Some((t@, j as int))
            },
            None => sp_qstr(s@, i as int) is None,
        },
{
    let n = s.unicode_len();
    if i >= n {
        return None;
    }
    if s.get_char(i) != '"' {
        return None;
    }
    let mut out = String::new();
    match qchars(s, i + 1, &mut out) {
        Some(j) => Some((out, j)),
        None => None,
    }
}

/// Reads an unsigned number no larger than `ceiling` at position `i`.
fn num_u64(s: &str, i: usize, ceiling: u64) -> (r: Option<(u64, usize)>)
    requires
        i <= s@.len(),
    ensures
        match r {
            Some((v, j)) => {
                &&& i < j <= s@.len()
                &&& sp_num(s@, i as int, ceiling as nat) == Some((v as nat, j as int))
            },
            None => sp_num(s@, i as int, ceiling as nat) is None,
        },
{
    let n = s.unicode_len();
    let ghost e = sp_digits_end(s@, i as int);
    proof {
        lemma_digits_end(s@, i as int);
    }
    let mut k = i;
    let mut acc: u64 = 0;
    let mut started = false;
    loop
        invariant
            i <= k <= n,
            k <= e,
            n == s@.len(),
            e == sp_digits_end(s@, i as int),
            sp_digits_end(s@, k as int) == e,
            i <= e <= n,
            started == (k != i),
            acc as nat == dec_value(s@.subrange(i as int, k as int)),
            acc <= ceiling,
        decreases n - k,
    {
        if k < n {
            let c = s.get_char(k);
            let u = c as u32;
            if 48 <= u && u <= 57 {
                let d = (u - 48) as u64;
                let ghost prev = s@.subrange(i as int, k as int);
                let ghost cur = s@.subrange(i as int, k as int + 1);
                proof {
                    assert(is_dec_digit(s@[k as int]));
                    lemma_digits_end(s@, k as int + 1);
                    assert(e == sp_digits_end(s@, k as int + 1));
                    assert(cur.drop_last() =~= prev);
                    assert(cur.last() == c);
                }
                let step = match acc.checked_mul(10) {
                    Some(m) => m.checked_add(d),
                    None => None,
                };
                match step {
                    Some(v) if v <= ceiling => {
                        acc = v;
                        started = true;
                        k += 1;
                        continue ;
                    },
                    _ => {
                        proof {
                            assert(dec_value(cur) > ceiling as nat);
                            assert(cur =~= s@.subrange(i as int, e).subrange(0, k + 1 - i));
                            lemma_dec_value_prefix_le(s@.subrange(i as int, e), k + 1 - i);
                        }
                        return None;
                    },
                }
            }
        }
        // no digit at k: the run ends here
        proof {
            assert(sp_digits_end(s@, k as int) == k as int);
        }
        if !started {
            return None;
        }
        return Some((acc, k));
    }
}

/// Reads a participant identifier, written as a quoted string, at `i`.
fn entity(s: &str, i: usize) -> (r: Option<(EntityId, usize)>)
    requires
        i <= s@.len(),
    ensures
        match r {
            Some((id, j)) => {
                &&& i < j <= s@.len()
                &&& sp_entity(s@, i as int) == Some((id, j as int))
            },
            None => sp_entity(s@, i as int) is None,
        },
{
    match qstr(s, i) {
        Some((t, j)) => match EntityId::parse(t.as_str()) {
            Ok(id) => Some((id, j)),
            Err(_) => None,
        },
        None => None,
    }
}

/// `sp_ws`, made total: positions outside the text stay put.
pub open spec fn sp_ws_t(s: Seq<char>, i: int) -> int {
    if 0 <= i <= s.len() {
        sp_ws(s, i)
    } else {
        i
    }
}

/// A quoted key read at position `i` (quotes included in `qkey`),
/// followed by a colon, whitespace allowed around the colon: the
/// position after it all.
pub open spec fn sp_keyname(s: Seq<char>, i: int, qkey: Seq<char>) -> Option<int> {
    if !(0 <= i <= s.len()) {
        None
    } else {
        match sp_lit(s, i, qkey) {
            Some(j) => {
                let j2 = sp_ws_t(s, j);
                if 0 <= j2 < s.len() && s[j2] == ':' {
                    Some(sp_ws_t(s, j2 + 1))
                } else {
                    None
                }
            },
            None => None,
        }
    }
}

/// A comma, then a quoted key and its colon.
pub open spec fn sp_key(s: Seq<char>, i: int, qkey: Seq<char>) -> Option<int> {
    if !(0 <= i <= s.len()) {
        None
    } else {
        let j = sp_ws(s, i);
        if 0 <= j < s.len() && s[j] == ',' {
            sp_keyname(s, sp_ws_t(s, j + 1), qkey)
        } else {
            None
        }
    }
}

/// The elements of a roster after its first entry: each preceded by a
/// comma, closed by the bracket.
pub open spec fn sp_ids_rest(s: Seq<char>, i: int) -> Option<(Seq<EntityId>, int)>
    decreases s.len() - i,
    when 0 <= i <= s.len()
{
    let j = sp_ws(s, i);
    if !(i <= j < s.len()) {
        None
    } else if s[j] == ']' {
        Some((Seq::empty(), j + 1))
    } else if s[j] == ',' {
        let k = sp_ws_t(s, j + 1);
        match sp_entity(s, k) {
            Some((id, m)) => {
                if !(j < m <= s.len()) {
                    None
                } else {
                    match sp_ids_rest(s, m) {
                        Some((t, e)) => Some((seq![id] + t, e)),
                        None => None,
                    }
                }
            },
            None => None,
        }
    } else {
        None
    }
}

/// A roster of identifiers: a bracketed, comma-separated list of quoted
/// identifier strings.
pub open spec fn sp_ids(s: Seq<char>, i: int) -> Option<(Seq<EntityId>, int)> {
    if 0 <= i < s.len() && s[i] == '[' {
        let j = sp_ws(s, i + 1);
        if !(0 <= j < s.len()) {
            None
        } else if s[j] == ']' {
            Some((Seq::empty(), j + 1))
        } else {
            match sp_entity(s, j) {
                Some((id, m)) => {
                    if !(0 <= m <= s.len()) {
                        None
                    } else {
                        match sp_ids_rest(s, m) {
                            Some((t, e)) => Some((seq![id] + t, e)),
                            None => None,
                        }
                    }
                },
                None => None,
            }
        }
    } else {
        None
    }
}

/// An optional numbered field: absent when the comma and key do not
/// follow, present when they do and a number fits; a key without a
/// well-formed number refuses the text.
pub open spec fn sp_opt_field(s: Seq<char>, i: int, qkey: Seq<char>) -> Option<
    (Option<usize>, int),
> {
    match sp_key(s, i, qkey) {
        Some(j) => {
            if !(0 <= j <= s.len()) {
                None
            } else {
                match sp_num(s, j, usize::MAX as nat) {
                    Some((v, e)) => Some((Some(v as usize), e)),
                    None => None,
                }
            }
        },
        None => Some((None, i)),
    }
}

/// The fields a tag demands, read after the correlation fields: the
/// payload and the position after its last field.
pub open spec fn sp_payload(s: Seq<char>, i: int, tag: Seq<char>) -> Option<(PayloadV, int)> {
    if tag == "init"@ {
        match sp_key(s, i, "\"node_id\""@) {
            Some(j) => match sp_entity(s, j) {
                Some((nid, k)) => match sp_key(s, k, "\"node_ids\""@) {
                    Some(m) => {
                        if !(0 <= m < s.len() && s[m] == '[') {
                            None
                        } else {
                            match sp_ids(s, m) {
                                Some((roster, e)) => Some(
                                    (PayloadV::Init { node_id: nid, node_ids: roster }, e),
                                ),
                                None => None,
                            }
                        }
                    },
                    None => None,
                },
                None => None,
            },
            None => None,
        }
    } else if tag == "init_ok"@ {
        Some((PayloadV::InitOk, i))
    } else if tag == "echo"@ {
        match sp_key(s, i, "\"echo\""@) {
            Some(j) => match sp_qstr(s, j) {
                Some((t, e)) => Some((PayloadV::Echo { echo: t }, e)),
                None => None,
            },
            None => None,
        }
    } else if tag == "echo_ok"@ {
        match sp_key(s, i, "\"echo\""@) {
            Some(j) => match sp_qstr(s, j) {
                Some((t, e)) => Some((PayloadV::EchoOk { echo: t }, e)),
                None => None,
            },
            None => None,
        }
    } else if tag == "generate"@ {
        Some((PayloadV::Generate, i))
    } else if tag == "generate_ok"@ {
        match sp_key(s, i, "\"id\""@) {
            Some(j) => match sp_num(s, j, u64::MAX as nat) {
                Some((v, e)) => Some((PayloadV::GenerateOk { id: v as u64 }, e)),
                None => None,
            },
            None => None,
        }
    } else {
        None
    }
}

/// A body object: the tag first, then the optional correlation fields
/// in their fixed order, then the tag's own fields.
pub open spec fn sp_body(s: Seq<char>, i: int) -> Option<(BodyV, int)> {
    if !(0 <= i < s.len() && s[i] == '{') {
        None
    } else {
        match sp_keyname(s, sp_ws_t(s, i + 1), "\"type\""@) {
            Some(j) => match sp_qstr(s, j) {
                Some((tag, k)) => match sp_opt_field(s, k, "\"msg_id\""@) {
                    Some((mid, k2)) => match sp_opt_field(s, k2, "\"in_reply_to\""@) {
                        Some((irt, k3)) => match sp_payload(s, k3, tag) {
                            Some((p, k4)) => {
                                let k5 = sp_ws_t(s, k4);
                                if 0 <= k5 < s.len() && s[k5] == '}' {
                                    Some(
                                        (
                                            BodyV { msg_id: mid, in_reply_to: irt, payload: p },
                                            k5 + 1,
                                        ),
                                    )
                                } else {
                                    None
                                }
                            },
                            None => None,
                        },
                        None => None,
                    },
                    None => None,
                },
                None => None,
            },
            None => None,
        }
    }
}

/// What a full input line denotes: an envelope object with `src`,
/// `dest` and `body` in that order, whitespace allowed between tokens,
/// and nothing but whitespace after it.
pub open spec fn spec_decode(s: Seq<char>) -> Option<EnvelopeV> {
    let i0 = sp_ws_t(s, 0);
    if !(0 <= i0 < s.len() && s[i0] == '{') {
        None
    } else {
        match sp_keyname(s, sp_ws_t(s, i0 + 1), "\"src\""@) {
            Some(j) => match sp_entity(s, j) {
                Some((src, k)) => match sp_key(s, k, "\"dest\""@) {
                    Some(m) => match sp_entity(s, m) {
                        Some((dest, p)) => match sp_key(s, p, "\"body\""@) {
                            Some(q) => match sp_body(s, q) {
                                Some((b, r)) => {
                                    let r2 = sp_ws_t(s, r);
                                    if 0 <= r2 < s.len() && s[r2] == '}' {
                                        if sp_ws_t(s, r2 + 1) == s.len() {
                                            Some(EnvelopeV { src: src, dest: dest, body: b })
                                        } else {
                                            None
                                        }
                                    } else {
                                        None
                                    }
                                },
                                None => None,
                            },
                            None => None,
                        },
                        None => None,
                    },
                    None => None,
                },
                None => None,
            },
            None => None,
        }
    }
}

/// Reads a quoted key and its colon at `i`.
fn keyname(s: &str, i: usize, qkey: &str) -> (r: Option<usize>)
    requires
        i <= s@.len(),
    ensures
        match r {
            Some(j) => sp_keyname(s@, i as int, qkey@) == Some(j as int) && j <= s@.len(),
            None => sp_keyname(s@, i as int, qkey@) is None,
        },
{
    let n = s.unicode_len();
    let j = match lit(s, i, qkey) {
        Some(j) => j,
        None => {
            return None;
        },
    };
    let j2 = ws(s, j);
    if j2 < n && s.get_char(j2) == ':' {
        Some(ws(s, j2 + 1))
    } else {
        None
    }
}

/// Reads a comma, a quoted key and its colon at `i`.
fn comma_key(s: &str, i: usize, qkey: &str) -> (r: Option<usize>)
    requires
        i <= s@.len(),
    ensures
        match r {
            Some(j) => sp_key(s@, i as int, qkey@) == Some(j as int) && j <= s@.len(),
            None => sp_key(s@, i as int, qkey@) is None,
        },
{
    let n = s.unicode_len();
    let j = ws(s, i);
    if j < n && s.get_char(j) == ',' {
        keyname(s, ws(s, j + 1), qkey)
    } else {
        None
    }
}

/// Reads roster entries after the first, appending them.
fn ids_rest(s: &str, i: usize, out: &mut Vec<EntityId>) -> (r: Option<usize>)
    requires
        i <= s@.len(),
    ensures
        match r {
            Some(j) => {
                &&& j <= s@.len()
                &&& match sp_ids_rest(s@, i as int) {
                    Some((t, sj)) => j as int == sj && final(out)@ == old(out)@ + t,
                    None => false,
                }
            },
            None => sp_ids_rest(s@, i as int) is None,
        },
    decreases s@.len() - i,
{
    let n = s.unicode_len();
    let j = ws(s, i);
    if j >= n {
        return None;
    }
    let c = s.get_char(j);
    if c == ']' {
        proof {
            assert(old(out)@ + Seq::<EntityId>::empty() =~= old(out)@);
        }
        return Some(j + 1);
    }
    if c == ',' {
        let k = ws(s, j + 1);
        match entity(s, k) {
            Some((id, m)) => {
                out.push(id);
                let r = ids_rest(s, m, out);
                proof {
                    if let Some((t, _)) = sp_ids_rest(s@, m as int) {
                        assert(old(out)@.push(id) + t =~= old(out)@ + (seq![id] + t));
                    }
                }
                r
            },
            None => None,
        }
    } else {
        None
    }
}

/// Reads a roster at `i`.
fn ids(s: &str, i: usize) -> (r: Option<(Vec<EntityId>, usize)>)
    requires
        i <= s@.len(),
    ensures
        match r {
            Some((v, j)) => j <= s@.len() && sp_ids(s@, i as int) == Some((v@, j as int)),
            None => sp_ids(s@, i as int) is None,
        },
{
    let n = s.unicode_len();
    if i >= n {
        return None;
    }
    if s.get_char(i) != '[' {
        return None;
    }
    let j = ws(s, i + 1);
    if j >= n {
        return None;
    }
    if s.get_char(j) == ']' {
        let v: Vec<EntityId> = Vec::new();
        proof {
            assert(v@ =~= Seq::<EntityId>::empty());
        }
        return Some((v, j + 1));
    }
    match entity(s, j) {
        Some((id, m)) => {
            let mut v: Vec<EntityId> = Vec::new();
            v.push(id);
            match ids_rest(s, m, &mut v) {
                Some(e) => {
                    proof {
                        if let Some((t, _)) = sp_ids_rest(s@, m as int) {
                            assert(Seq::<EntityId>::empty().push(id) + t =~= seq![id] + t);
                        }
                    }
                    Some((v, e))
                },
                None => None,
            }
        },
        None => None,
    }
}

/// Reads an optional numbered field.
fn opt_field(s: &str, i: usize, qkey: &str) -> (r: Option<(Option<usize>, usize)>)
    requires
        i <= s@.len(),
    ensures
        match r {
            Some((v, j)) => j <= s@.len() && sp_opt_field(s@, i as int, qkey@) == Some(
                (v, j as int),
            ),
            None => sp_opt_field(s@, i as int, qkey@) is None,
        },
{
    match comma_key(s, i, qkey) {
        Some(j) => {
            match num_u64(s, j, usize::MAX as u64) {
                Some((v, e)) => Some((Some(v as usize), e)),
                None => None,
            }
        },
        None => Some((None, i)),
    }
}

/// Compares two pieces of text character by character.
fn str_eq(a: &str, b: &str) -> (r: bool)
    ensures
        r == (a@ == b@),
{
    let n = a.unicode_len();
    let m = b.unicode_len();
    if n != m {
        return false;
    }
    let mut i: usize = 0;
    while i < n
        invariant
            0 <= i <= n,
            n == a@.len(),
            n == b@.len(),
            a@.subrange(0, i as int) == b@.subrange(0, i as int),
        decreases n - i,
    {
        let x = a.get_char(i);
        let y = b.get_char(i);
        if x != y {
            proof {
                assert(a@[i as int] != b@[i as int]);
            }
            return false;
        }
        proof {
            assert(a@.subrange(0, i as int + 1) =~= a@.subrange(0, i as int).push(x));
            assert(b@.subrange(0, i as int + 1) =~= b@.subrange(0, i as int).push(y));
        }
        i += 1;
    }
    proof {
        assert(a@ =~= a@.subrange(0, n as int));
        assert(b@ =~= b@.subrange(0, n as int));
    }
    true
}

/// Reads the fields a tag demands.
fn payload(s: &str, i: usize, tag: &String) -> (r: Option<(MsgPayload, usize)>)
    requires
        i <= s@.len(),
    ensures
        match r {
            Some((p, j)) => j <= s@.len() && sp_payload(s@, i as int, tag@) == Some(
                (p@, j as int),
            ),
            None => sp_payload(s@, i as int, tag@) is None,
        },
{
    let n = s.unicode_len();
    if str_eq(tag.as_str(), "init") {
        let j = match comma_key(s, i, "\"node_id\"") {
            Some(j) => j,
            None => {
                return None;
            },
        };
        let (nid, k) = match entity(s, j) {
            Some(x) => x,
            None => {
                return None;
            },
        };
        let m = match comma_key(s, k, "\"node_ids\"") {
            Some(m) => m,
            None => {
                return None;
            },
        };
        if m >= n || s.get_char(m) != '[' {
            return None;
        }
        match ids(s, m) {
            Some((roster, e)) => Some((MsgPayload::Init { node_id: nid, node_ids: roster }, e)),
            None => None,
        }
    } else if str_eq(tag.as_str(), "init_ok") {
        Some((MsgPayload::InitOk, i))
    } else if str_eq(tag.as_str(), "echo") {
        let j = match comma_key(s, i, "\"echo\"") {
            Some(j) => j,
            None => {
                return None;
            },
        };
        match qstr(s, j) {
            Some((t, e)) => Some((MsgPayload::Echo { echo: t }, e)),
            None => None,
        }
    } else if str_eq(tag.as_str(), "echo_ok") {
        let j = match comma_key(s, i, "\"echo\"") {
            Some(j) => j,
            None => {
                return None;
            },
        };
        match qstr(s, j) {
            Some((t, e)) => Some((MsgPayload::EchoOk { echo: t }, e)),
            None => None,
        }
    } else if str_eq(tag.as_str(), "generate") {
        Some((MsgPayload::Generate, i))
    } else if str_eq(tag.as_str(), "generate_ok") {
        let j = match comma_key(s, i, "\"id\"") {
            Some(j) => j,
            None => {
                return None;
            },
        };
        match num_u64(s, j, u64::MAX) {
            Some((v, e)) => Some((MsgPayload::GenerateOk { id: v }, e)),
            None => None,
        }
    } else {
        None
    }
}

/// Reads a body object at `i`.
fn body(s: &str, i: usize) -> (r: Option<(MsgBody, usize)>)
    requires
        i <= s@.len(),
    ensures
        match r {
            Some((b, j)) => j <= s@.len() && sp_body(s@, i as int) == Some((b@, j as int)),
            None => sp_body(s@, i as int) is None,
        },
{
    let n = s.unicode_len();
    if i >= n {
        return None;
    }
    if s.get_char(i) != '{' {
        return None;
    }
    let j = match keyname(s, ws(s, i + 1), "\"type\"") {
        Some(j) => j,
        None => {
            return None;
        },
    };
    let (tag, k) = match qstr(s, j) {
        Some(x) => x,
        None => {
            return None;
        },
    };
    let (mid, k2) = match opt_field(s, k, "\"msg_id\"") {
        Some(x) => x,
        None => {
            return None;
        },
    };
    let (irt, k3) = match opt_field(s, k2, "\"in_reply_to\"") {
        Some(x) => x,
        None => {
            return None;
        },
    };
    let (p, k4) = match payload(s, k3, &tag) {
        Some(x) => x,
        None => {
            return None;
        },
    };
    let k5 = ws(s, k4);
    if k5 < n && s.get_char(k5) == '}' {
        Some((MsgBody { msg_id: mid, in_reply_to: irt, payload: p }, k5 + 1))
    } else {
        None
    }
}

/// Decodes one input line into an envelope, exactly as `spec_decode`
/// says: a well-formed envelope is returned, everything else is refused.
pub fn decode(s: &str) -> (r: Result<MsgEnvelope, DecodeError>)
    ensures
        match r {
            Ok(e) => spec_decode(s@) == Some(e@),
            Err(_) => spec_decode(s@) is None,
        },
{
    let n = s.unicode_len();
    let i0 = ws(s, 0);
    if i0 >= n || s.get_char(i0) != '{' {
        return Err(DecodeError);
    }
    let j = match keyname(s, ws(s, i0 + 1), "\"src\"") {
        Some(j) => j,
        None => {
            return Err(DecodeError);
        },
    };
    let (src, k) = match entity(s, j) {
        Some(x) => x,
        None => {
            return Err(DecodeError);
        },
    };
    let m = match comma_key(s, k, "\"dest\"") {
        Some(m) => m,
        None => {
            return Err(DecodeError);
        },
    };
    let (dest, p) = match entity(s, m) {
        Some(x) => x,
        None => {
            return Err(DecodeError);
        },
    };
    let q = match comma_key(s, p, "\"body\"") {
        Some(q) => q,
        None => {
            return Err(DecodeError);
        },
    };
    let (b, r) = match body(s, q) {
        Some(x) => x,
        None => {
            return Err(DecodeError);
        },
    };
    let r2 = ws(s, r);
    if r2 < n && s.get_char(r2) == '}' {
        let r3 = ws(s, r2 + 1);
        if r3 == n {
            Ok(MsgEnvelope { src, dest, body: b })
        } else {
            Err(DecodeError)
        }
    } else {
        Err(DecodeError)
    }
}

/// The hexadecimal digit character of a value below sixteen.
pub open spec fn hex_char(d: nat) -> char {
    if d < 10 {
        crate::text::dec_digit_char(d)
    } else if d == 10 {
        'a'
    } else if d == 11 {
        'b'
    } else if d == 12 {
        'c'
    } else if d == 13 {
        'd'
    } else if d == 14 {
        'e'
    } else {
        'f'
    }
}

/// How one character is written inside a quoted string: quote and
/// backslash escaped, the common control characters by letter, the rare
/// ones in hexadecimal, everything else as itself.
pub open spec fn esc_char(c: char) -> Seq<char> {
    if c == '"' {
        seq!['\\', '"']
    } else if c == '\\' {
        seq!['\\', '\\']
    } else if c == '\u{8}' {
        seq!['\\', 'b']
    } else if c == '\u{c}' {
        seq!['\\', 'f']
    } else if c == '\n' {
        seq!['\\', 'n']
    } else if c == '\r' {
        seq!['\\', 'r']
    } else if c == '\t' {
        seq!['\\', 't']
    } else if (c as u32) < 32 {
        seq!['\\', 'u', '0', '0', hex_char((c as u32 / 16) as nat), hex_char(
            (c as u32 % 16) as nat,
        )]
    } else {
        seq![c]
    }
}

/// How a whole text is written inside a quoted string.
pub open spec fn esc_str(t: Seq<char>) -> Seq<char>
    decreases t.len(),
{
    if t.len() == 0 {
        Seq::empty()
    } else {
        esc_str(t.drop_last()) + esc_char(t.last())
    }
}

/// An identifier in its wire form: its text in quotes.
pub open spec fn sp_quoted_id(id: EntityId) -> Seq<char> {
    seq!['"'] + crate::ident::spec_format(id) + seq!['"']
}

/// A roster in its wire form, brackets not included: the quoted
/// identifiers, comma-separated.
pub open spec fn sp_ids_text(ids: Seq<EntityId>) -> Seq<char>
    decreases ids.len(),
{
    if ids.len() == 0 {
        Seq::empty()
    } else if ids.len() == 1 {
        sp_quoted_id(ids[0])
    } else {
        sp_ids_text(ids.drop_last()) + seq![','] + sp_quoted_id(ids.last())
    }
}

/// The tag word of a payload.
pub open spec fn spec_tag(p: PayloadV) -> Seq<char> {
    match p {
        PayloadV::Init { .. } => "init"@,
        PayloadV::InitOk => "init_ok"@,
        PayloadV::Echo { .. } => "echo"@,
        PayloadV::EchoOk { .. } => "echo_ok"@,
        PayloadV::Generate => "generate"@,
        PayloadV::GenerateOk { .. } => "generate_ok"@,
    }
}

/// An optional numbered field in its wire form: nothing when absent.
pub open spec fn spec_opt_num(prefix: Seq<char>, v: Option<usize>) -> Seq<char> {
    match v {
        Some(x) => prefix + crate::text::dec_str(x as nat),
        None => Seq::empty(),
    }
}

/// The fields a payload carries, in their wire form.
pub open spec fn spec_payload_fields(p: PayloadV) -> Seq<char> {
    match p {
        PayloadV::Init { node_id, node_ids } => ",\"node_id\":"@ + sp_quoted_id(node_id)
            + ",\"node_ids\":["@ + sp_ids_text(node_ids) + "]"@,
        PayloadV::InitOk => Seq::empty(),
        PayloadV::Echo { echo } => ",\"echo\":\""@ + esc_str(echo) + "\""@,
        PayloadV::EchoOk { echo } => ",\"echo\":\""@ + esc_str(echo) + "\""@,
        PayloadV::Generate => Seq::empty(),
        PayloadV::GenerateOk { id } => ",\"id\":"@ + crate::text::dec_str(id as nat),
    }
}

/// A body in its wire form: the tag, then the correlation fields that
/// are present, then the tag's own fields.
pub open spec fn spec_encode_body(b: BodyV) -> Seq<char> {
    "{\"type\":\""@ + spec_tag(b.payload) + "\""@ + spec_opt_num(",\"msg_id\":"@, b.msg_id)
        + spec_opt_num(",\"in_reply_to\":"@, b.in_reply_to) + spec_payload_fields(b.payload) + "}"@
}

/// An envelope in its wire form: one JSON object, fields in canonical
/// order, no whitespace.
pub open spec fn spec_encode(e: EnvelopeV) -> Seq<char> {
    "{\"src\":\""@ + crate::ident::spec_format(e.src) + "\",\"dest\":\""@
        + crate::ident::spec_format(e.dest) + "\",\"body\":"@ + spec_encode_body(e.body) + "}"@
}

/// The hexadecimal digit character, as executable code.
fn hex_char_x(d: u32) -> (c: char)
    requires
        d < 16,
    ensures
        c == hex_char(d as nat),
{
    if d < 10 {
        crate::text::digit_char(d as u64)
    } else if d == 10 {
        'a'
    } else if d == 11 {
        'b'
    } else if d == 12 {
        'c'
    } else if d == 13 {
        'd'
    } else if d == 14 {
        'e'
    } else {
        'f'
    }
}

/// Appends one character in its escaped form.
fn push_esc_char(out: &mut String, c: char)
    ensures
        final(out)@ == old(out)@ + esc_char(c),
{
    let u = c as u32;
    if c == '"' {
        push_char(out, '\\');
        push_char(out, '"');
        proof {
            assert(old(out)@.push('\\').push('"') =~= old(out)@ + esc_char(c));
        }
    } else if c == '\\' {
        push_char(out, '\\');
        push_char(out, '\\');
        proof {
            assert(old(out)@.push('\\').push('\\') =~= old(out)@ + esc_char(c));
        }
    } else if c == '\u{8}' {
        push_char(out, '\\');
        push_char(out, 'b');
        proof {
            assert(old(out)@.push('\\').push('b') =~= old(out)@ + esc_char(c));
        }
    } else if c == '\u{c}' {
        push_char(out, '\\');
        push_char(out, 'f');
        proof {
            assert(old(out)@.push('\\').push('f') =~= old(out)@ + esc_char(c));
        }
    } else if c == '\n' {
        push_char(out, '\\');
        push_char(out, 'n');
        proof {
            assert(old(out)@.push('\\').push('n') =~= old(out)@ + esc_char(c));
        }
    } else if c == '\r' {
        push_char(out, '\\');
        push_char(out, 'r');
        proof {
            assert(old(out)@.push('\\').push('r') =~= old(out)@ + esc_char(c));
        }
    } else if c == '\t' {
        push_char(out, '\\');
        push_char(out, 't');
        proof {
            assert(old(out)@.push('\\').push('t') =~= old(out)@ + esc_char(c));
        }
    } else if u < 32 {
        push_char(out, '\\');
        push_char(out, 'u');
        push_char(out, '0');
        push_char(out, '0');
        push_char(out, hex_char_x(u / 16));
        push_char(out, hex_char_x(u % 16));
        proof {
            assert(old(out)@.push('\\').push('u').push('0').push('0').push(
                hex_char((u / 16) as nat),
            ).push(hex_char((u % 16) as nat)) =~= old(out)@ + esc_char(c));
        }
    } else {
        push_char(out, c);
        proof {
            assert(old(out)@.push(c) =~= old(out)@ + esc_char(c));
        }
    }
}

/// Appends a whole text in its escaped form.
fn push_esc_str(out: &mut String, t: &str)
    ensures
        final(out)@ == old(out)@ + esc_str(t@),
{
    let n = t.unicode_len();
    let mut i: usize = 0;
    proof {
        assert(t@.subrange(0, 0) =~= Seq::<char>::empty());
        assert(out@ =~= out@ + esc_str(t@.subrange(0, 0)));
    }
    while i < n
        invariant
            0 <= i <= n,
            n == t@.len(),
            out@ == old(out)@ + esc_str(t@.subrange(0, i as int)),
        decreases n - i,
    {
        let c = t.get_char(i);
        push_esc_char(out, c);
        proof {
            let cur = t@.subrange(0, i as int + 1);
            assert(cur.drop_last() =~= t@.subrange(0, i as int));
            assert(cur.last() == c);
            assert(out@ =~= old(out)@ + esc_str(cur));
        }
        i += 1;
    }
    proof {
        assert(t@.subrange(0, n as int) =~= t@);
    }
}

/// Appends an identifier's text.
fn push_entity(out: &mut String, id: EntityId)
    ensures
        final(out)@ == old(out)@ + crate::ident::spec_format(id),
{
    let f = id.format();
    out.append(f.as_str());
}

/// Appends an identifier in quotes.
fn push_quoted_id(out: &mut String, id: EntityId)
    ensures
        final(out)@ == old(out)@ + sp_quoted_id(id),
{
    push_char(out, '"');
    push_entity(out, id);
    push_char(out, '"');
    proof {
        assert((old(out)@.push('"') + crate::ident::spec_format(id)).push('"') =~= old(out)@
            + sp_quoted_id(id));
    }
}

/// Appends a roster, brackets not included.
fn push_ids(out: &mut String, ids: &Vec<EntityId>)
    ensures
        final(out)@ == old(out)@ + sp_ids_text(ids@),
{
    if ids.len() == 0 {
        proof {
            assert(out@ =~= old(out)@ + sp_ids_text(ids@));
        }
        return ;
    }
    push_quoted_id(out, ids[0]);
    proof {
        let one = ids@.subrange(0, 1);
        assert(one.len() == 1);
        assert(one[0] == ids@[0]);
        assert(out@ =~= old(out)@ + sp_ids_text(one));
    }
    let mut i: usize = 1;
    while i < ids.len()
        invariant
            1 <= i <= ids@.len(),
            out@ == old(out)@ + sp_ids_text(ids@.subrange(0, i as int)),
        decreases ids@.len() - i,
    {
        push_char(out, ',');
        push_quoted_id(out, ids[i]);
        proof {
            let cur = ids@.subrange(0, i as int + 1);
            assert(cur.drop_last() =~= ids@.subrange(0, i as int));
            assert(cur.last() == ids@[i as int]);
            assert(cur.len() >= 2);
            assert(out@ =~= old(out)@ + sp_ids_text(cur));
        }
        i += 1;
    }
    proof {
        assert(ids@.subrange(0, ids@.len() as int) =~= ids@);
    }
}

/// Appends a payload's tag word.
fn push_tag(out: &mut String, p: &MsgPayload)
    ensures
        final(out)@ == old(out)@ + spec_tag(p@),
{
    match p {
        MsgPayload::Init { .. } => out.append("init"),
        MsgPayload::InitOk => out.append("init_ok"),
        MsgPayload::Echo { .. } => out.append("echo"),
        MsgPayload::EchoOk { .. } => out.append("echo_ok"),
        MsgPayload::Generate => out.append("generate"),
        MsgPayload::GenerateOk { .. } => out.append("generate_ok"),
    }
}

/// Appends an optional numbered field, prefix included.
fn push_opt_num(out: &mut String, prefix: &str, v: Option<usize>)
    ensures
        final(out)@ == old(out)@ + spec_opt_num(prefix@, v),
{
    match v {
        Some(x) => {
            out.append(prefix);
            crate::text::push_dec(out, x as u64);
        },
        None => {
            proof {
                assert(out@ =~= old(out)@ + spec_opt_num(prefix@, v));
            }
        },
    }
}

/// Appends the fields a payload carries.
fn push_payload_fields(out: &mut String, p: &MsgPayload)
    ensures
        final(out)@ == old(out)@ + spec_payload_fields(p@),
{
    match p {
        MsgPayload::Init { node_id, node_ids } => {
            out.append(",\"node_id\":");
            push_quoted_id(out, *node_id);
            out.append(",\"node_ids\":[");
            push_ids(out, node_ids);
            out.append("]");
            proof {
                assert(out@ =~= old(out)@ + spec_payload_fields(p@));
            }
        },
        MsgPayload::InitOk => {
            proof {
                assert(out@ =~= old(out)@ + spec_payload_fields(p@));
            }
        },
        MsgPayload::Echo { echo } => {
            out.append(",\"echo\":\"");
            push_esc_str(out, echo.as_str());
            out.append("\"");
            proof {
                assert(out@ =~= old(out)@ + spec_payload_fields(p@));
            }
        },
        MsgPayload::EchoOk { echo } => {
            out.append(",\"echo\":\"");
            push_esc_str(out, echo.as_str());
            out.append("\"");
            proof {
                assert(out@ =~= old(out)@ + spec_payload_fields(p@));
            }
        },
        MsgPayload::Generate => {
            proof {
                assert(out@ =~= old(out)@ + spec_payload_fields(p@));
            }
        },
        MsgPayload::GenerateOk { id } => {
            out.append(",\"id\":");
            crate::text::push_dec(out, *id);
            proof {
                assert(out@ =~= old(out)@ + spec_payload_fields(p@));
            }
        },
    }
}

/// Appends a body in its wire form.
fn push_body(out: &mut String, b: &MsgBody)
    ensures
        final(out)@ == old(out)@ + spec_encode_body(b@),
{
    out.append("{\"type\":\"");
    push_tag(out, &b.payload);
    out.append("\"");
    push_opt_num(out, ",\"msg_id\":", b.msg_id);
    push_opt_num(out, ",\"in_reply_to\":", b.in_reply_to);
    push_payload_fields(out, &b.payload);
    out.append("}");
    proof {
        assert(out@ =~= old(out)@ + spec_encode_body(b@));
    }
}

/// Encodes an envelope as one line of text, exactly as `spec_encode`
/// says, for every envelope.
pub fn encode(env: &MsgEnvelope) -> (r: String)
    ensures
        r@ == spec_encode(env@),
{
    let mut out = String::new();
    out.append("{\"src\":\"");
    push_entity(&mut out, env.src);
    out.append("\",\"dest\":\"");
    push_entity(&mut out, env.dest);
    out.append("\",\"body\":");
    push_body(&mut out, &env.body);
    out.append("}");
    proof {
        assert(out@ =~= spec_encode(env@));
    }
    out
}

/// A character the string reader can give back: everything except the
/// rare control characters, which the writer spells in hexadecimal and
/// the reader does not take.
pub open spec fn decodable_char(c: char) -> bool {
    (c as u32) >= 32 || c == '\u{8}' || c == '\u{c}' || c == '\n' || c == '\r' || c == '\t'
}

/// Escaping a text works from the front as well as from the back.
proof fn lemma_esc_str_front(t: Seq<char>)
    requires
        t.len() > 0,
    ensures
        esc_str(t) == esc_char(t[0]) + esc_str(t.drop_first()),
    decreases t.len(),
{
    if t.len() == 1 {
        assert(t.drop_last() =~= Seq::<char>::empty());
        assert(t.drop_first() =~= Seq::<char>::empty());
        assert(esc_char(t[0]) + esc_str(t.drop_first()) =~= esc_char(t.last()));
        assert(esc_str(t) =~= esc_str(t.drop_last()) + esc_char(t.last()));
        assert(esc_str(t.drop_last()) + esc_char(t.last()) =~= esc_char(t.last()));
    } else {
        let a = t.drop_last();
        lemma_esc_str_front(a);
        assert(a[0] == t[0]);
        assert(a.drop_first() =~= t.drop_first().drop_last());
        assert(t.drop_first().last() == t.last());
        assert(esc_str(t.drop_first()) == esc_str(t.drop_first().drop_last()) + esc_char(t.last()));
        assert(esc_str(t) == esc_str(a) + esc_char(t.last()));
        assert(esc_char(t[0]) + (esc_str(t.drop_first().drop_last()) + esc_char(t.last())) =~= (
        esc_char(t[0]) + esc_str(t.drop_first().drop_last())) + esc_char(t.last()));
    }
}

/// A text with nothing to escape is written as itself.
proof fn lemma_esc_str_plain(t: Seq<char>)
    requires
        forall|k: int|
            0 <= k < t.len() ==> (t[k] as u32) >= 32 && #[trigger] t[k] != '"' && t[k] != '\\',
    ensures
        esc_str(t) == t,
    decreases t.len(),
{
    if t.len() == 0 {
        assert(esc_str(t) =~= t);
    } else {
        lemma_esc_str_plain(t.drop_last());
        assert(esc_char(t.last()) == seq![t.last()]);
        assert(t.drop_last() + seq![t.last()] =~= t);
    }
}

/// A run of digits that stops at `j` is measured to stop at `j`.
proof fn lemma_digits_run(s: Seq<char>, i: int, j: int)
    requires
        0 <= i <= j <= s.len(),
        forall|k: int| i <= k < j ==> is_dec_digit(#[trigger] s[k]),
        j == s.len() || !is_dec_digit(s[j]),
    ensures
        sp_digits_end(s, i) == j,
    decreases j - i,
{
    if i < j {
        lemma_digits_run(s, i + 1, j);
    }
}

/// Reading string content from the writer's output gives the original
/// text back and stops after the closing quote.
proof fn lemma_qchars_of_escaped(s: Seq<char>, i: int, t: Seq<char>, tail: Seq<char>)
    requires
        0 <= i <= s.len(),
        s.subrange(i, s.len() as int) =~= esc_str(t) + seq!['"'] + tail,
        forall|k: int| 0 <= k < t.len() ==> decodable_char(#[trigger] t[k]),
    ensures
        sp_qchars(s, i) == Some((t, i + esc_str(t).len() + 1)),
    decreases t.len(),
{
    let suffix = s.subrange(i, s.len() as int);
    assert(suffix.len() == s.len() - i);
    assert(suffix.len() == esc_str(t).len() + 1 + tail.len());
    if t.len() == 0 {
        assert(esc_str(t) =~= Seq::<char>::empty());
        assert(suffix == esc_str(t) + seq!['"'] + tail);
        assert(suffix[0] == (esc_str(t) + seq!['"'])[0]);
        assert(suffix[0] == '"');
        assert(s.subrange(i, s.len() as int)[0] == s[i + 0]);
    } else {
        let c = t[0];
        assert(decodable_char(c));
        let t1 = t.drop_first();
        lemma_esc_str_front(t);
        let ec = esc_char(c);
        let rest = esc_str(t1) + seq!['"'] + tail;
        assert(suffix =~= ec + rest) by {
            assert(suffix == esc_str(t) + seq!['"'] + tail);
            assert((ec + esc_str(t1)) + seq!['"'] + tail =~= ec + rest);
        }
        assert(forall|k: int| 0 <= k < t1.len() ==> decodable_char(#[trigger] t1[k])) by {
            assert(forall|k: int|
                0 <= k < t1.len() ==> t1[k] == t[k + 1] && decodable_char(#[trigger] t[k + 1]));
        }
        let i2 = i + ec.len();
        assert(s.len() - i == ec.len() + rest.len());
        assert(s.subrange(i2, s.len() as int) =~= rest) by {
            assert forall|k: int| 0 <= k < rest.len() implies s.subrange(i2, s.len() as int)[k]
                == rest[k] by {
                assert(s.subrange(i2, s.len() as int)[k] == s[i2 + k]);
                assert(suffix[ec.len() + k] == s[i + ec.len() + k]);
                assert(suffix[ec.len() + k] == (ec + rest)[ec.len() + k]);
                assert((ec + rest)[ec.len() + k] == rest[k]);
            }
        }
        lemma_qchars_of_escaped(s, i2, t1, tail);
        assert(seq![c] + t1 =~= t);
        assert(s.subrange(i, s.len() as int)[0] == s[i + 0]);
        assert(suffix[0] == ec[0]);
        if c == '"' || c == '\\' || c == '\u{8}' || c == '\u{c}' || c == '\n' || c == '\r' || c
            == '\t' {
            assert(ec.len() == 2);
            assert(s[i] == '\\');
            assert(s.subrange(i, s.len() as int)[1] == s[i + 1]);
            assert(suffix[1] == ec[1]);
            assert(esc_of(ec[1]) == Some(c));
        } else {
            assert((c as u32) >= 32);
            assert(ec == seq![c]);
            assert(s[i] == c);
        }
    }
}

/// The text from position `i` to the end.
spec fn tail_from(s: Seq<char>, i: int) -> Seq<char> {
    s.subrange(i, s.len() as int)
}

/// Consuming a leading piece of the remaining text moves the position
/// past it.
proof fn lemma_advance(s: Seq<char>, i: int, a: Seq<char>, r: Seq<char>)
    requires
        0 <= i <= s.len(),
        tail_from(s, i) =~= a + r,
    ensures
        i + a.len() <= s.len(),
        tail_from(s, i + a.len()) =~= r,
{
    assert(tail_from(s, i).len() == s.len() - i);
    let i2 = i + a.len();
    assert forall|k: int| 0 <= k < r.len() implies tail_from(s, i2)[k] == r[k] by {
        assert(s.subrange(i2, s.len() as int)[k] == s[i2 + k]);
        assert(tail_from(s, i)[a.len() + k] == s[i + a.len() + k]);
        assert(tail_from(s, i)[a.len() + k] == (a + r)[a.len() + k]);
    }
}

/// A token standing at the front of the remaining text is read there.
proof fn lemma_lit_at(s: Seq<char>, i: int, l: Seq<char>, r: Seq<char>)
    requires
        0 <= i <= s.len(),
        tail_from(s, i) =~= l + r,
    ensures
        sp_lit(s, i, l) == Some(i + l.len()),
{
    assert(tail_from(s, i).len() == s.len() - i);
    assert(s.subrange(i, i + l.len()) =~= l) by {
        assert forall|k: int| 0 <= k < l.len() implies s.subrange(i, i + l.len())[k] == l[k] by {
            assert(s.subrange(i, i + l.len())[k] == s[i + k]);
            assert(tail_from(s, i)[k] == s[i + k]);
            assert(tail_from(s, i)[k] == (l + r)[k]);
        }
    }
}

/// Where no whitespace stands, none is skipped.
proof fn lemma_ws_none(s: Seq<char>, i: int)
    requires
        0 <= i <= s.len(),
        i == s.len() || !is_ws(s[i]),
    ensures
        sp_ws(s, i) == i,
        sp_ws_t(s, i) == i,
{
}

/// The first character of the remaining text.
proof fn lemma_head(s: Seq<char>, i: int, a: Seq<char>, r: Seq<char>)
    requires
        0 <= i <= s.len(),
        tail_from(s, i) =~= a + r,
        a.len() > 0,
    ensures
        i < s.len(),
        s[i] == a[0],
{
    assert(tail_from(s, i).len() == s.len() - i);
    assert(s.subrange(i, s.len() as int)[0] == s[i + 0]);
    assert(tail_from(s, i)[0] == (a + r)[0]);
}

/// A quoted, escaped text at the front of the remaining text is read
/// back as the original text.
proof fn lemma_qstr_at(s: Seq<char>, i: int, t: Seq<char>, r: Seq<char>)
    requires
        0 <= i <= s.len(),
        tail_from(s, i) =~= seq!['"'] + esc_str(t) + seq!['"'] + r,
        forall|k: int| 0 <= k < t.len() ==> decodable_char(#[trigger] t[k]),
    ensures
        sp_qstr(s, i) == Some((t, i + esc_str(t).len() + 2)),
{
    lemma_head(s, i, seq!['"'], esc_str(t) + seq!['"'] + r);
    assert(seq!['"'] + esc_str(t) + seq!['"'] + r =~= seq!['"'] + (esc_str(t) + seq!['"'] + r));
    lemma_advance(s, i, seq!['"'], esc_str(t) + seq!['"'] + r);
    lemma_qchars_of_escaped(s, i + 1, t, r);
}

/// Every character of an identifier's text is plain: a letter or a digit.
proof fn lemma_format_chars(id: EntityId)
    ensures
        forall|k: int|
            0 <= k < crate::ident::spec_format(id).len() ==> ((#[trigger] crate::ident::spec_format(
                id,
            )[k] as u32) >= 32 && crate::ident::spec_format(id)[k] != '"'
                && crate::ident::spec_format(id)[k] != '\\'),
{
    let f = crate::ident::spec_format(id);
    let d = crate::text::dec_str(crate::ident::spec_index(id));
    crate::text::lemma_dec_str_digits(crate::ident::spec_index(id));
    assert forall|k: int| 0 <= k < f.len() implies ((#[trigger] f[k] as u32) >= 32 && f[k] != '"'
        && f[k] != '\\') by {
        if k == 0 {
        } else {
            assert(f[k] == d[k - 1]);
            assert(is_dec_digit(d[k - 1]));
        }
    }
}

/// A quoted identifier at the front of the remaining text is read back.
proof fn lemma_entity_at(s: Seq<char>, i: int, id: EntityId, r: Seq<char>)
    requires
        0 <= i <= s.len(),
        tail_from(s, i) =~= sp_quoted_id(id) + r,
    ensures
        sp_entity(s, i) == Some((id, i + sp_quoted_id(id).len())),
{
    let f = crate::ident::spec_format(id);
    lemma_format_chars(id);
    lemma_esc_str_plain(f);
    assert(sp_quoted_id(id) + r =~= seq!['"'] + esc_str(f) + seq!['"'] + r);
    lemma_qstr_at(s, i, f, r);
    crate::ident::lemma_entity_round_trip(id);
    assert(sp_quoted_id(id).len() == f.len() + 2);
}

/// A decimal number at the front of the remaining text, followed by
/// something that is no digit, is read back exactly.
proof fn lemma_num_at(s: Seq<char>, i: int, n: nat, ceiling: nat, r: Seq<char>)
    requires
        0 <= i <= s.len(),
        tail_from(s, i) =~= crate::text::dec_str(n) + r,
        r.len() > 0,
        !is_dec_digit(r[0]),
        n <= ceiling,
    ensures
        sp_num(s, i, ceiling) == Some((n, i + crate::text::dec_str(n).len())),
{
    let d = crate::text::dec_str(n);
    crate::text::lemma_dec_str_digits(n);
    let j = i + d.len();
    lemma_advance(s, i, d, r);
    assert forall|k: int| i <= k < j implies is_dec_digit(#[trigger] s[k]) by {
        assert(tail_from(s, i)[k - i] == s[k]);
        assert(tail_from(s, i)[k - i] == (d + r)[k - i]);
    }
    lemma_head(s, j, r, Seq::empty());
    assert(r + Seq::<char>::empty() =~= r);
    lemma_digits_run(s, i, j);
    assert(s.subrange(i, j) =~= d) by {
        assert forall|k: int| 0 <= k < d.len() implies s.subrange(i, j)[k] == d[k] by {
            assert(s.subrange(i, j)[k] == s[i + k]);
            assert(tail_from(s, i)[k] == s[i + k]);
            assert(tail_from(s, i)[k] == (d + r)[k]);
        }
    }
}

/// A quoted key with its colon at the front of the remaining text.
proof fn lemma_keyname_at(s: Seq<char>, i: int, qkey: Seq<char>, r: Seq<char>)
    requires
        0 <= i <= s.len(),
        tail_from(s, i) =~= qkey + seq![':'] + r,
        r.len() > 0,
        !is_ws(r[0]),
    ensures
        sp_keyname(s, i, qkey) == Some(i + qkey.len() + 1),
{
    assert(qkey + seq![':'] + r =~= qkey + (seq![':'] + r));
    lemma_lit_at(s, i, qkey, seq![':'] + r);
    lemma_advance(s, i, qkey, seq![':'] + r);
    let j = i + qkey.len();
    lemma_head(s, j, seq![':'], r);
    lemma_ws_none(s, j);
    lemma_advance(s, j, seq![':'], r);
    lemma_head(s, j + 1, r, Seq::empty());
    assert(r + Seq::<char>::empty() =~= r);
    lemma_ws_none(s, j + 1);
}

/// A comma, a quoted key and its colon at the front of the remaining text.
proof fn lemma_key_at(s: Seq<char>, i: int, qkey: Seq<char>, r: Seq<char>)
    requires
        0 <= i <= s.len(),
        tail_from(s, i) =~= seq![','] + qkey + seq![':'] + r,
        qkey.len() > 0,
        !is_ws(qkey[0]),
        r.len() > 0,
        !is_ws(r[0]),
    ensures
        sp_key(s, i, qkey) == Some(i + qkey.len() + 2),
{
    lemma_head(s, i, seq![','] + qkey + seq![':'], r);
    assert((seq![','] + qkey + seq![':'])[0] == ',');
    lemma_ws_none(s, i);
    assert(seq![','] + qkey + seq![':'] + r =~= seq![','] + (qkey + seq![':'] + r));
    lemma_advance(s, i, seq![','], qkey + seq![':'] + r);
    lemma_head(s, i + 1, qkey, seq![':'] + r);
    lemma_ws_none(s, i + 1);
    lemma_keyname_at(s, i + 1, qkey, r);
}

/// Without a comma ahead, no keyed field is read.
proof fn lemma_key_none_nocomma(s: Seq<char>, i: int, qkey: Seq<char>)
    requires
        0 <= i < s.len(),
        !is_ws(s[i]),
        s[i] != ',',
    ensures
        sp_key(s, i, qkey) is None,
{
    lemma_ws_none(s, i);
}

/// A comma followed by a different key is not read as this key.
proof fn lemma_key_none_mismatch(s: Seq<char>, i: int, qkey: Seq<char>, w: int)
    requires
        0 <= i < s.len(),
        s[i] == ',',
        i + 1 < s.len(),
        !is_ws(s[i + 1]),
        0 <= w < qkey.len(),
        i + 1 + w < s.len(),
        s[i + 1 + w] != qkey[w],
    ensures
        sp_key(s, i, qkey) is None,
{
    lemma_ws_none(s, i);
    lemma_ws_none(s, i + 1);
    if i + 1 + qkey.len() <= s.len() {
        assert(s.subrange(i + 1, i + 1 + qkey.len())[w] == s[i + 1 + w]);
        assert(s.subrange(i + 1, i + 1 + qkey.len()) != qkey);
    }
}

/// A roster's wire text after its first entry: a comma before each
/// further entry.
spec fn sp_ids_text_rest(ids: Seq<EntityId>) -> Seq<char>
    decreases ids.len(),
{
    if ids.len() == 0 {
        Seq::empty()
    } else {
        seq![','] + sp_quoted_id(ids[0]) + sp_ids_text_rest(ids.drop_first())
    }
}

/// A roster's wire text splits into its first entry and the rest.
proof fn lemma_ids_text_front(ids: Seq<EntityId>)
    requires
        ids.len() > 0,
    ensures
        sp_ids_text(ids) == sp_quoted_id(ids[0]) + sp_ids_text_rest(ids.drop_first()),
    decreases ids.len(),
{
    if ids.len() == 1 {
        assert(ids.drop_first() =~= Seq::<EntityId>::empty());
        assert(sp_quoted_id(ids[0]) + sp_ids_text_rest(ids.drop_first()) =~= sp_quoted_id(ids[0]));
    } else {
        let a = ids.drop_last();
        lemma_ids_text_front(a);
        assert(a[0] == ids[0]);
        assert(a.drop_first() =~= ids.drop_first().drop_last());
        assert(ids.drop_first().last() == ids.last());
        assert(ids.drop_first().len() > 0);
        // the rest-text also splits off its last entry
        lemma_ids_text_rest_back(ids.drop_first());
        assert(sp_ids_text(ids) == sp_ids_text(a) + seq![','] + sp_quoted_id(ids.last()));
        assert((sp_quoted_id(ids[0]) + sp_ids_text_rest(a.drop_first())) + seq![',']
            + sp_quoted_id(ids.last()) =~= sp_quoted_id(ids[0]) + (sp_ids_text_rest(
            a.drop_first(),
        ) + seq![','] + sp_quoted_id(ids.last())));
    }
}

/// The rest-text splits off its last entry.
proof fn lemma_ids_text_rest_back(ids: Seq<EntityId>)
    requires
        ids.len() > 0,
    ensures
        sp_ids_text_rest(ids) == sp_ids_text_rest(ids.drop_last()) + seq![','] + sp_quoted_id(
            ids.last(),
        ),
    decreases ids.len(),
{
    if ids.len() == 1 {
        assert(ids.drop_last() =~= Seq::<EntityId>::empty());
        assert(ids.drop_first() =~= Seq::<EntityId>::empty());
        assert(sp_ids_text_rest(ids) == seq![','] + sp_quoted_id(ids[0]) + sp_ids_text_rest(
            ids.drop_first(),
        ));
        assert(seq![','] + sp_quoted_id(ids[0]) + Seq::<char>::empty() =~= Seq::<
            char,
        >::empty() + seq![','] + sp_quoted_id(ids[0]));
    } else {
        let a = ids.drop_first();
        lemma_ids_text_rest_back(a);
        assert(a.last() == ids.last());
        assert(a.drop_last() =~= ids.drop_last().drop_first());
        assert(ids.drop_last().len() > 0);
        assert(ids.drop_last()[0] == ids[0]);
        assert(seq![','] + sp_quoted_id(ids[0]) + (sp_ids_text_rest(a.drop_last()) + seq![',']
            + sp_quoted_id(ids.last())) =~= (seq![','] + sp_quoted_id(ids[0]) + sp_ids_text_rest(
            ids.drop_last().drop_first(),
        )) + seq![','] + sp_quoted_id(ids.last()));
    }
}

/// Roster entries after the first are read back from their wire text.
proof fn lemma_ids_rest_at(s: Seq<char>, i: int, ids: Seq<EntityId>, r: Seq<char>)
    requires
        0 <= i <= s.len(),
        tail_from(s, i) =~= sp_ids_text_rest(ids) + seq![']'] + r,
    ensures
        sp_ids_rest(s, i) == Some((ids, i + sp_ids_text_rest(ids).len() + 1)),
    decreases ids.len(),
{
    if ids.len() == 0 {
        assert(sp_ids_text_rest(ids) + seq![']'] + r =~= seq![']'] + r);
        lemma_head(s, i, seq![']'], r);
        lemma_ws_none(s, i);
        assert(sp_ids_rest(s, i) == Some((Seq::<EntityId>::empty(), i + 1)));
        assert(ids =~= Seq::<EntityId>::empty());
    } else {
        let id = ids[0];
        let rest = ids.drop_first();
        let piece = seq![','] + sp_quoted_id(id);
        assert(sp_ids_text_rest(ids) == piece + sp_ids_text_rest(rest));
        let after = sp_quoted_id(id) + (sp_ids_text_rest(rest) + seq![']'] + r);
        assert(tail_from(s, i) =~= seq![','] + after) by {
            assert((piece + sp_ids_text_rest(rest)) + seq![']'] + r =~= seq![','] + after);
        }
        lemma_head(s, i, seq![','], after);
        lemma_ws_none(s, i);
        lemma_advance(s, i, seq![','], after);
        assert(after =~= seq!['"'] + (crate::ident::spec_format(id) + seq!['"'] + (
        sp_ids_text_rest(rest) + seq![']'] + r)));
        lemma_head(s, i + 1, seq!['"'], crate::ident::spec_format(id) + seq!['"'] + (
        sp_ids_text_rest(rest) + seq![']'] + r));
        lemma_ws_none(s, i + 1);
        assert(tail_from(s, i + 1) =~= sp_quoted_id(id) + (sp_ids_text_rest(rest) + seq![']'] + r));
        lemma_entity_at(s, i + 1, id, sp_ids_text_rest(rest) + seq![']'] + r);
        let m = i + 1 + sp_quoted_id(id).len();
        lemma_advance(s, i + 1, sp_quoted_id(id), sp_ids_text_rest(rest) + seq![']'] + r);
        lemma_ids_rest_at(s, m, rest, r);
        assert(seq![id] + rest =~= ids);
    }
}

/// A whole roster is read back from its bracketed wire text.
proof fn lemma_ids_at(s: Seq<char>, i: int, ids: Seq<EntityId>, r: Seq<char>)
    requires
        0 <= i <= s.len(),
        tail_from(s, i) =~= seq!['['] + sp_ids_text(ids) + seq![']'] + r,
    ensures
        sp_ids(s, i) == Some((ids, i + sp_ids_text(ids).len() + 2)),
{
    lemma_head(s, i, seq!['['], sp_ids_text(ids) + seq![']'] + r);
    assert(seq!['['] + sp_ids_text(ids) + seq![']'] + r =~= seq!['['] + (sp_ids_text(ids)
        + seq![']'] + r));
    lemma_advance(s, i, seq!['['], sp_ids_text(ids) + seq![']'] + r);
    if ids.len() == 0 {
        assert(sp_ids_text(ids) + seq![']'] + r =~= seq![']'] + r);
        lemma_head(s, i + 1, seq![']'], r);
        lemma_ws_none(s, i + 1);
        assert(sp_ids(s, i) == Some((Seq::<EntityId>::empty(), i + 2)));
        assert(ids =~= Seq::<EntityId>::empty());
    } else {
        let id = ids[0];
        let rest = ids.drop_first();
        lemma_ids_text_front(ids);
        let after = sp_ids_text_rest(rest) + seq![']'] + r;
        assert(tail_from(s, i + 1) =~= sp_quoted_id(id) + after) by {
            assert((sp_quoted_id(id) + sp_ids_text_rest(rest)) + seq![']'] + r =~= sp_quoted_id(id)
                + after);
        }
        assert(sp_quoted_id(id) + after =~= seq!['"'] + (crate::ident::spec_format(id) + seq!['"']
            + after));
        lemma_head(s, i + 1, seq!['"'], crate::ident::spec_format(id) + seq!['"'] + after);
        lemma_ws_none(s, i + 1);
        lemma_entity_at(s, i + 1, id, after);
        let m = i + 1 + sp_quoted_id(id).len();
        lemma_advance(s, i + 1, sp_quoted_id(id), after);
        lemma_ids_rest_at(s, m, rest, r);
        assert(seq![id] + rest =~= ids);
    }
}

/// An envelope whose text survives the trip out and back: echo strings
/// hold no rare control characters, which the writer spells in
/// hexadecimal and the reader does not take.
pub open spec fn wire_safe(e: EnvelopeV) -> bool {
    match e.body.payload {
        PayloadV::Echo { echo } => forall|k: int|
            0 <= k < echo.len() ==> decodable_char(#[trigger] echo[k]),
        PayloadV::EchoOk { echo } => forall|k: int|
            0 <= k < echo.len() ==> decodable_char(#[trigger] echo[k]),
        _ => true,
    }
}

/// An optional field whose key does not follow is read as absent.
proof fn lemma_opt_absent_at(s: Seq<char>, i: int, qkey: Seq<char>, w: int, r: Seq<char>)
    requires
        0 <= i <= s.len(),
        tail_from(s, i) =~= r,
        r.len() > 0,
        !is_ws(r[0]),
        r[0] == '}' || r[0] == ',',
        r[0] == ',' ==> 0 <= w < qkey.len() && r.len() > 1 + w && r[1 + w] != qkey[w] && !is_ws(
            r[1],
        ),
    ensures
        sp_opt_field(s, i, qkey) == Some((None::<usize>, i)),
{
    assert(r + Seq::<char>::empty() =~= r);
    lemma_head(s, i, r, Seq::empty());
    assert(tail_from(s, i).len() == s.len() - i);
    if r[0] == '}' {
        lemma_key_none_nocomma(s, i, qkey);
    } else {
        assert(s.subrange(i, s.len() as int)[1] == s[i + 1]);
        assert(s.subrange(i, s.len() as int)[1 + w] == s[i + 1 + w]);
        lemma_key_none_mismatch(s, i, qkey, w);
    }
}

/// The fields a payload writes are read back as that payload.
#[verifier::rlimit(100)]
proof fn lemma_payload_at(s: Seq<char>, i: int, p: PayloadV, r: Seq<char>)
    requires
        0 <= i <= s.len(),
        tail_from(s, i) =~= spec_payload_fields(p) + seq!['}'] + r,
        match p {
            PayloadV::Echo { echo } => forall|k: int|
                0 <= k < echo.len() ==> decodable_char(#[trigger] echo[k]),
            PayloadV::EchoOk { echo } => forall|k: int|
                0 <= k < echo.len() ==> decodable_char(#[trigger] echo[k]),
            _ => true,
        },
    ensures
        sp_payload(s, i, spec_tag(p)) == Some((p, i + spec_payload_fields(p).len())),
{
    reveal_strlit("init");
    reveal_strlit("init_ok");
    reveal_strlit("echo");
    reveal_strlit("echo_ok");
    reveal_strlit("generate");
    reveal_strlit("generate_ok");
    match p {
        PayloadV::Init { node_id, node_ids } => {
            reveal_strlit(",\"node_id\":");
            reveal_strlit("\"node_id\"");
            reveal_strlit(",\"node_ids\":[");
            reveal_strlit("\"node_ids\"");
            reveal_strlit("]");
            let after1 = sp_quoted_id(node_id) + (",\"node_ids\":["@ + sp_ids_text(node_ids)
                + "]"@ + seq!['}'] + r);
            assert(tail_from(s, i) =~= seq![','] + "\"node_id\""@ + seq![':'] + after1);
            assert(after1[0] == '"');
            lemma_key_at(s, i, "\"node_id\""@, after1);
            let j = i + "\"node_id\""@.len() + 2;
            assert(seq![','] + "\"node_id\""@ + seq![':'] + after1 =~= (seq![','] + "\"node_id\""@
                + seq![':']) + after1);
            lemma_advance(s, i, seq![','] + "\"node_id\""@ + seq![':'], after1);
            lemma_entity_at(s, j, node_id, ",\"node_ids\":["@ + sp_ids_text(node_ids) + "]"@
                + seq!['}'] + r);
            let k = j + sp_quoted_id(node_id).len();
            lemma_advance(s, j, sp_quoted_id(node_id), ",\"node_ids\":["@ + sp_ids_text(node_ids)
                + "]"@ + seq!['}'] + r);
            let after2 = seq!['['] + sp_ids_text(node_ids) + seq![']'] + (seq!['}'] + r);
            assert(tail_from(s, k) =~= seq![','] + "\"node_ids\""@ + seq![':'] + after2) by {
                assert(",\"node_ids\":["@ + sp_ids_text(node_ids) + "]"@ + seq!['}'] + r =~= seq![
                    ','] + "\"node_ids\""@ + seq![':'] + after2);
            }
            assert(after2[0] == '[');
            lemma_key_at(s, k, "\"node_ids\""@, after2);
            let m = k + "\"node_ids\""@.len() + 2;
            assert(seq![','] + "\"node_ids\""@ + seq![':'] + after2 =~= (seq![','] + "\"node_ids\""@
                + seq![':']) + after2);
            lemma_advance(s, k, seq![','] + "\"node_ids\""@ + seq![':'], after2);
            lemma_head(s, m, seq!['['], sp_ids_text(node_ids) + seq![']'] + (seq!['}'] + r));
            lemma_ids_at(s, m, node_ids, seq!['}'] + r);
            assert(spec_payload_fields(p).len() == ",\"node_id\":"@.len() + sp_quoted_id(
                node_id,
            ).len() + ",\"node_ids\":["@.len() + sp_ids_text(node_ids).len() + "]"@.len());
        },
        PayloadV::InitOk => {
            assert(spec_payload_fields(p) =~= Seq::<char>::empty());
            assert("init_ok"@.len() != "init"@.len());
        },
        PayloadV::Echo { echo } => {
            reveal_strlit(",\"echo\":\"");
            reveal_strlit("\"echo\"");
            reveal_strlit("\"");
            assert("echo"@[0] != "init"@[0]);
            assert("echo"@.len() != "init_ok"@.len());
            let after = seq!['"'] + esc_str(echo) + seq!['"'] + (seq!['}'] + r);
            assert(tail_from(s, i) =~= seq![','] + "\"echo\""@ + seq![':'] + after) by {
                assert(",\"echo\":\""@ + esc_str(echo) + "\""@ + seq!['}'] + r =~= seq![',']
                    + "\"echo\""@ + seq![':'] + after);
            }
            assert(after[0] == '"');
            lemma_key_at(s, i, "\"echo\""@, after);
            let j = i + "\"echo\""@.len() + 2;
            assert(seq![','] + "\"echo\""@ + seq![':'] + after =~= (seq![','] + "\"echo\""@
                + seq![':']) + after);
            lemma_advance(s, i, seq![','] + "\"echo\""@ + seq![':'], after);
            lemma_qstr_at(s, j, echo, seq!['}'] + r);
            assert(spec_payload_fields(p).len() == ",\"echo\":\""@.len() + esc_str(echo).len()
                + "\""@.len());
        },
        PayloadV::EchoOk { echo } => {
            reveal_strlit(",\"echo\":\"");
            reveal_strlit("\"echo\"");
            reveal_strlit("\"");
            assert("echo_ok"@.len() != "init"@.len());
            assert("echo_ok"@[0] != "init_ok"@[0]);
            assert("echo_ok"@.len() != "echo"@.len());
            let after = seq!['"'] + esc_str(echo) + seq!['"'] + (seq!['}'] + r);
            assert(tail_from(s, i) =~= seq![','] + "\"echo\""@ + seq![':'] + after) by {
                assert(",\"echo\":\""@ + esc_str(echo) + "\""@ + seq!['}'] + r =~= seq![',']
                    + "\"echo\""@ + seq![':'] + after);
            }
            assert(after[0] == '"');
            lemma_key_at(s, i, "\"echo\""@, after);
            let j = i + "\"echo\""@.len() + 2;
            assert(seq![','] + "\"echo\""@ + seq![':'] + after =~= (seq![','] + "\"echo\""@
                + seq![':']) + after);
            lemma_advance(s, i, seq![','] + "\"echo\""@ + seq![':'], after);
            lemma_qstr_at(s, j, echo, seq!['}'] + r);
            assert(spec_payload_fields(p).len() == ",\"echo\":\""@.len() + esc_str(echo).len()
                + "\""@.len());
        },
        PayloadV::Generate => {
            assert(spec_payload_fields(p) =~= Seq::<char>::empty());
            assert("generate"@.len() != "init"@.len());
            assert("generate"@.len() != "init_ok"@.len());
            assert("generate"@.len() != "echo"@.len());
            assert("generate"@.len() != "echo_ok"@.len());
        },
        PayloadV::GenerateOk { id } => {
            reveal_strlit(",\"id\":");
            reveal_strlit("\"id\"");
            assert("generate_ok"@.len() != "init"@.len());
            assert("generate_ok"@.len() != "init_ok"@.len());
            assert("generate_ok"@.len() != "echo"@.len());
            assert("generate_ok"@.len() != "echo_ok"@.len());
            assert("generate_ok"@.len() != "generate"@.len());
            let d = crate::text::dec_str(id as nat);
            crate::text::lemma_dec_str_digits(id as nat);
            let after = d + (seq!['}'] + r);
            assert(tail_from(s, i) =~= seq![','] + "\"id\""@ + seq![':'] + after) by {
                assert(",\"id\":"@ + d + seq!['}'] + r =~= seq![','] + "\"id\""@ + seq![':']
                    + after);
            }
            assert(is_dec_digit(d[0]));
            assert(!is_ws(after[0]));
            lemma_key_at(s, i, "\"id\""@, after);
            let j = i + "\"id\""@.len() + 2;
            assert(seq![','] + "\"id\""@ + seq![':'] + after =~= (seq![','] + "\"id\""@ + seq![':'])
                + after);
            lemma_advance(s, i, seq![','] + "\"id\""@ + seq![':'], after);
            assert(tail_from(s, j) =~= d + (seq!['}'] + r));
            assert(!is_dec_digit((seq!['}'] + r)[0]));
            lemma_num_at(s, j, id as nat, u64::MAX as nat, seq!['}'] + r);
            assert((id as nat) as u64 == id);
            assert(spec_payload_fields(p).len() == ",\"id\":"@.len() + d.len());
        },
    }
}

/// What the text after the correlation fields can begin with: a comma
/// opening a keyed field whose key is never `msg_id` and is `id` when
/// its second letter is `i`, or the closing brace.
proof fn lemma_fields_head(p: PayloadV, r: Seq<char>, t: Seq<char>)
    requires
        t =~= spec_payload_fields(p) + seq!['}'] + r,
    ensures
        t.len() > 0,
        !is_dec_digit(t[0]),
        !is_ws(t[0]),
        t[0] == ',' || t[0] == '}',
        t[0] == ',' ==> t.len() > 3 && t[1] == '"' && !is_ws(t[1]) && t[2] != 'm' && (t[2] != 'i'
            || t[3] == 'd'),
{
    match p {
        PayloadV::Init { node_id, node_ids } => {
            reveal_strlit(",\"node_id\":");
            assert(t[0] == ",\"node_id\":"@[0]);
            assert(t[1] == ",\"node_id\":"@[1]);
            assert(t[2] == ",\"node_id\":"@[2]);
        },
        PayloadV::InitOk => {
            assert(spec_payload_fields(p).len() == 0);
            assert(t[0] == (seq!['}'] + r)[0]);
        },
        PayloadV::Echo { echo } => {
            reveal_strlit(",\"echo\":\"");
            assert(t[0] == ",\"echo\":\""@[0]);
            assert(t[1] == ",\"echo\":\""@[1]);
            assert(t[2] == ",\"echo\":\""@[2]);
        },
        PayloadV::EchoOk { echo } => {
            reveal_strlit(",\"echo\":\"");
            assert(t[0] == ",\"echo\":\""@[0]);
            assert(t[1] == ",\"echo\":\""@[1]);
            assert(t[2] == ",\"echo\":\""@[2]);
        },
        PayloadV::Generate => {
            assert(spec_payload_fields(p).len() == 0);
            assert(t[0] == (seq!['}'] + r)[0]);
        },
        PayloadV::GenerateOk { id } => {
            reveal_strlit(",\"id\":");
            assert(t[0] == ",\"id\":"@[0]);
            assert(t[1] == ",\"id\":"@[1]);
            assert(t[2] == ",\"id\":"@[2]);
            assert(t[3] == ",\"id\":"@[3]);
        },
    }
}

/// What the text after the tag can begin with, `in_reply_to` included.
proof fn lemma_after_head(b: BodyV, r: Seq<char>, t: Seq<char>)
    requires
        t =~= spec_opt_num(",\"in_reply_to\":"@, b.in_reply_to) + spec_payload_fields(b.payload)
            + seq!['}'] + r,
    ensures
        t.len() > 0,
        !is_dec_digit(t[0]),
        !is_ws(t[0]),
        t[0] == ',' || t[0] == '}',
        t[0] == ',' ==> t.len() > 2 && t[1] == '"' && !is_ws(t[1]) && t[2] != 'm',
{
    match b.in_reply_to {
        Some(v) => {
            reveal_strlit(",\"in_reply_to\":");
            assert(t[0] == ",\"in_reply_to\":"@[0]);
            assert(t[1] == ",\"in_reply_to\":"@[1]);
            assert(t[2] == ",\"in_reply_to\":"@[2]);
        },
        None => {
            assert(spec_opt_num(",\"in_reply_to\":"@, b.in_reply_to).len() == 0);
            assert(t =~= spec_payload_fields(b.payload) + seq!['}'] + r);
            lemma_fields_head(b.payload, r, t);
        },
    }
}

/// One optional numbered field is read back as written: its value when
/// the body carries one, absent when it does not.
#[verifier::rlimit(100)]
proof fn lemma_opt_num_at(
    s: Seq<char>,
    i: int,
    qkey: Seq<char>,
    pfx: Seq<char>,
    v: Option<usize>,
    w: int,
    nxt: Seq<char>,
)
    requires
        0 <= i <= s.len(),
        pfx =~= seq![','] + qkey + seq![':'],
        tail_from(s, i) =~= spec_opt_num(pfx, v) + nxt,
        qkey.len() > 1,
        !is_ws(qkey[0]),
        nxt.len() > 0,
        !is_dec_digit(nxt[0]),
        !is_ws(nxt[0]),
        nxt[0] == ',' || nxt[0] == '}',
        (v is None && nxt[0] == ',') ==> (0 <= w < qkey.len() && nxt.len() > 1 + w && nxt[1 + w]
            != qkey[w] && !is_ws(nxt[1])),
    ensures
        sp_opt_field(s, i, qkey) == Some((v, i + spec_opt_num(pfx, v).len())),
        tail_from(s, i + spec_opt_num(pfx, v).len()) =~= nxt,
{
    match v {
        Some(x) => {
            let d = crate::text::dec_str(x as nat);
            crate::text::lemma_dec_str_digits(x as nat);
            assert(tail_from(s, i) =~= seq![','] + qkey + seq![':'] + (d + nxt)) by {
                assert(spec_opt_num(pfx, v) == pfx + d);
                assert((pfx + d) + nxt =~= seq![','] + qkey + seq![':'] + (d + nxt));
            }
            assert((d + nxt)[0] == d[0]);
            assert(is_dec_digit(d[0]));
            lemma_key_at(s, i, qkey, d + nxt);
            let j = i + qkey.len() + 2;
            assert(seq![','] + qkey + seq![':'] + (d + nxt) =~= (seq![','] + qkey + seq![':']) + (d
                + nxt));
            lemma_advance(s, i, seq![','] + qkey + seq![':'], d + nxt);
            lemma_num_at(s, j, x as nat, usize::MAX as nat, nxt);
            assert((x as nat) as usize == x);
            lemma_advance(s, j, d, nxt);
            assert(spec_opt_num(pfx, v).len() == pfx.len() + d.len());
        },
        None => {
            assert(tail_from(s, i) =~= nxt);
            lemma_opt_absent_at(s, i, qkey, w, nxt);
            assert(spec_opt_num(pfx, v).len() == 0);
        },
    }
}

/// The opening of a body's wire text: the brace, the `type` key and the
/// quoted tag, read back exactly.
#[verifier::rlimit(100)]
proof fn lemma_body_tag_prefix(s: Seq<char>, i: int, b: BodyV, r: Seq<char>)
    requires
        0 <= i <= s.len(),
        tail_from(s, i) =~= spec_encode_body(b) + r,
    ensures
        ({
            let tag = spec_tag(b.payload);
            let k = i + 10 + tag.len();
            &&& i < s.len() && s[i] == '{'
            &&& sp_ws_t(s, i + 1) == i + 1
            &&& sp_keyname(s, i + 1, "\"type\""@) == Some(i + 8)
            &&& sp_qstr(s, i + 8) == Some((tag, k))
            &&& k <= s.len()
            &&& tail_from(s, k) =~= spec_opt_num(",\"msg_id\":"@, b.msg_id) + spec_opt_num(
                ",\"in_reply_to\":"@,
                b.in_reply_to,
            ) + spec_payload_fields(b.payload) + seq!['}'] + r
        }),
{
    reveal_strlit("{\"type\":\"");
    reveal_strlit("\"type\"");
    reveal_strlit("\"");
    reveal_strlit("}");
    reveal_strlit("init");
    reveal_strlit("init_ok");
    reveal_strlit("echo");
    reveal_strlit("echo_ok");
    reveal_strlit("generate");
    reveal_strlit("generate_ok");
    let tag = spec_tag(b.payload);
    assert(forall|k: int|
        0 <= k < tag.len() ==> ((#[trigger] tag[k] as u32) >= 32 && tag[k] != '"' && tag[k]
            != '\\')) by {
        match b.payload {
            PayloadV::Init { .. } => {},
            PayloadV::InitOk => {},
            PayloadV::Echo { .. } => {},
            PayloadV::EchoOk { .. } => {},
            PayloadV::Generate => {},
            PayloadV::GenerateOk { .. } => {},
        }
    }
    lemma_esc_str_plain(tag);
    let rest1 = spec_opt_num(",\"msg_id\":"@, b.msg_id) + spec_opt_num(
        ",\"in_reply_to\":"@,
        b.in_reply_to,
    ) + spec_payload_fields(b.payload) + seq!['}'] + r;
    let rest2 = seq!['"'] + esc_str(tag) + seq!['"'] + rest1;
    assert(tail_from(s, i) =~= seq!['{'] + ("\"type\""@ + seq![':'] + rest2)) by {
        assert("}"@ =~= seq!['}']);
        assert("{\"type\":\""@ + tag + "\""@ + spec_opt_num(",\"msg_id\":"@, b.msg_id)
            + spec_opt_num(",\"in_reply_to\":"@, b.in_reply_to) + spec_payload_fields(b.payload)
            + "}"@ + r =~= seq!['{'] + ("\"type\""@ + seq![':'] + rest2));
    }
    lemma_head(s, i, seq!['{'], "\"type\""@ + seq![':'] + rest2);
    lemma_advance(s, i, seq!['{'], "\"type\""@ + seq![':'] + rest2);
    lemma_head(s, i + 1, "\"type\""@, seq![':'] + rest2);
    lemma_ws_none(s, i + 1);
    assert(rest2[0] == '"');
    lemma_keyname_at(s, i + 1, "\"type\""@, rest2);
    let j = i + 8;
    assert("\"type\""@ + seq![':'] + rest2 =~= ("\"type\""@ + seq![':']) + rest2);
    lemma_advance(s, i + 1, "\"type\""@ + seq![':'], rest2);
    lemma_qstr_at(s, j, tag, rest1);
    assert(esc_str(tag).len() == tag.len());
    assert(rest2 =~= (seq!['"'] + esc_str(tag) + seq!['"']) + rest1);
    lemma_advance(s, j, seq!['"'] + esc_str(tag) + seq!['"'], rest1);
}

/// A body's wire text is read back as that body.
#[verifier::rlimit(100)]
proof fn lemma_body_at(s: Seq<char>, i: int, b: BodyV, r: Seq<char>)
    requires
        0 <= i <= s.len(),
        tail_from(s, i) =~= spec_encode_body(b) + r,
        match b.payload {
            PayloadV::Echo { echo } => forall|k: int|
                0 <= k < echo.len() ==> decodable_char(#[trigger] echo[k]),
            PayloadV::EchoOk { echo } => forall|k: int|
                0 <= k < echo.len() ==> decodable_char(#[trigger] echo[k]),
            _ => true,
        },
    ensures
        sp_body(s, i) == Some((b, i + spec_encode_body(b).len())),
{
    reveal_strlit(",\"msg_id\":");
    reveal_strlit("\"msg_id\"");
    reveal_strlit(",\"in_reply_to\":");
    reveal_strlit("\"in_reply_to\"");
    reveal_strlit("}");
    reveal_strlit("{\"type\":\"");
    reveal_strlit("\"");
    lemma_body_tag_prefix(s, i, b, r);
    let tag = spec_tag(b.payload);
    let k = i + 10 + tag.len();
    // the optional msg_id field
    let after_m = spec_opt_num(",\"in_reply_to\":"@, b.in_reply_to) + spec_payload_fields(
        b.payload,
    ) + seq!['}'] + r;
    lemma_after_head(b, r, after_m);
    assert(tail_from(s, k) =~= spec_opt_num(",\"msg_id\":"@, b.msg_id) + after_m);
    assert("\"msg_id\""@[1] == 'm');
    assert(",\"msg_id\":"@ =~= seq![','] + "\"msg_id\""@ + seq![':']);
    lemma_opt_num_at(s, k, "\"msg_id\""@, ",\"msg_id\":"@, b.msg_id, 1, after_m);
    let k2 = k + spec_opt_num(",\"msg_id\":"@, b.msg_id).len();
    // the optional in_reply_to field
    let after_i = spec_payload_fields(b.payload) + seq!['}'] + r;
    lemma_fields_head(b.payload, r, after_i);
    assert(after_m =~= spec_opt_num(",\"in_reply_to\":"@, b.in_reply_to) + after_i);
    assert("\"in_reply_to\""@[1] == 'i');
    assert("\"in_reply_to\""@[2] == 'n');
    assert(",\"in_reply_to\":"@ =~= seq![','] + "\"in_reply_to\""@ + seq![':']);
    let w: int = if after_i.len() > 2 && after_i[0] == ',' && after_i[2] == 'i' {
        2
    } else {
        1
    };
    lemma_opt_num_at(s, k2, "\"in_reply_to\""@, ",\"in_reply_to\":"@, b.in_reply_to, w, after_i);
    let k3 = k2 + spec_opt_num(",\"in_reply_to\":"@, b.in_reply_to).len();
    // the tag's own fields
    lemma_payload_at(s, k3, b.payload, r);
    let k4 = k3 + spec_payload_fields(b.payload).len();
    assert(after_i =~= spec_payload_fields(b.payload) + (seq!['}'] + r));
    lemma_advance(s, k3, spec_payload_fields(b.payload), seq!['}'] + r);
    lemma_head(s, k4, seq!['}'], r);
    lemma_ws_none(s, k4);
    assert(sp_body(s, i) == Some(
        (BodyV { msg_id: b.msg_id, in_reply_to: b.in_reply_to, payload: b.payload }, k4 + 1),
    ));
    assert(BodyV { msg_id: b.msg_id, in_reply_to: b.in_reply_to, payload: b.payload } == b);
    assert(k4 + 1 == i + spec_encode_body(b).len());
}

/// The opening of an envelope's wire text: brace, `src`, `dest` and the
/// `body` key, read back exactly, leaving the body's own text.
#[verifier::rlimit(100)]
proof fn lemma_envelope_prefix(e: EnvelopeV)
    ensures
        ({
            let s = spec_encode(e);
            let j: int = 7;
            let k = j + sp_quoted_id(e.src).len();
            let m = k + "\"dest\""@.len() + 2;
            let p2 = m + sp_quoted_id(e.dest).len();
            let q = p2 + "\"body\""@.len() + 2;
            &&& s.len() > 0 && s[0] == '{'
            &&& sp_ws_t(s, 0) == 0
            &&& sp_ws_t(s, 1) == 1
            &&& sp_keyname(s, 1, "\"src\""@) == Some(j)
            &&& sp_entity(s, j) == Some((e.src, k))
            &&& sp_key(s, k, "\"dest\""@) == Some(m)
            &&& sp_entity(s, m) == Some((e.dest, p2))
            &&& sp_key(s, p2, "\"body\""@) == Some(q)
            &&& 0 <= q <= s.len()
            &&& q + spec_encode_body(e.body).len() + 1 == s.len()
            &&& tail_from(s, q) =~= spec_encode_body(e.body) + seq!['}']
        }),
{
    reveal_strlit("{\"src\":\"");
    reveal_strlit("\"src\"");
    reveal_strlit("\",\"dest\":\"");
    reveal_strlit("\"dest\"");
    reveal_strlit("\",\"body\":");
    reveal_strlit("\"body\"");
    reveal_strlit("{\"type\":\"");
    reveal_strlit("}");
    let s = spec_encode(e);
    let t4 = spec_encode_body(e.body) + seq!['}'];
    let t3 = seq![','] + "\"body\""@ + seq![':'] + t4;
    let t2 = sp_quoted_id(e.dest) + t3;
    let t1 = seq![','] + "\"dest\""@ + seq![':'] + t2;
    let t0 = sp_quoted_id(e.src) + t1;
    assert(tail_from(s, 0) =~= seq!['{'] + ("\"src\""@ + seq![':'] + t0)) by {
        assert("{\"src\":\""@ + crate::ident::spec_format(e.src) + "\",\"dest\":\""@
            + crate::ident::spec_format(e.dest) + "\",\"body\":"@ + spec_encode_body(e.body)
            + "}"@ =~= seq!['{'] + ("\"src\""@ + seq![':'] + t0));
    }
    lemma_head(s, 0, seq!['{'], "\"src\""@ + seq![':'] + t0);
    lemma_ws_none(s, 0);
    lemma_advance(s, 0, seq!['{'], "\"src\""@ + seq![':'] + t0);
    lemma_head(s, 1, "\"src\""@, seq![':'] + t0);
    lemma_ws_none(s, 1);
    assert(t0[0] == '"');
    lemma_keyname_at(s, 1, "\"src\""@, t0);
    assert("\"src\""@ + seq![':'] + t0 =~= ("\"src\""@ + seq![':']) + t0);
    lemma_advance(s, 1, "\"src\""@ + seq![':'], t0);
    let j: int = 7;
    lemma_entity_at(s, j, e.src, t1);
    lemma_advance(s, j, sp_quoted_id(e.src), t1);
    let k = j + sp_quoted_id(e.src).len();
    assert(t2[0] == '"');
    lemma_key_at(s, k, "\"dest\""@, t2);
    assert(t1 =~= (seq![','] + "\"dest\""@ + seq![':']) + t2);
    lemma_advance(s, k, seq![','] + "\"dest\""@ + seq![':'], t2);
    let m = k + "\"dest\""@.len() + 2;
    lemma_entity_at(s, m, e.dest, t3);
    lemma_advance(s, m, sp_quoted_id(e.dest), t3);
    let p2 = m + sp_quoted_id(e.dest).len();
    assert(t4[0] == '{') by {
        assert(t4[0] == spec_encode_body(e.body)[0]);
        assert(spec_encode_body(e.body)[0] == "{\"type\":\""@[0]);
    }
    lemma_key_at(s, p2, "\"body\""@, t4);
    assert(t3 =~= (seq![','] + "\"body\""@ + seq![':']) + t4);
    lemma_advance(s, p2, seq![','] + "\"body\""@ + seq![':'], t4);
}

/// Law: the codec round-trips.  Decoding the text the writer produces
/// for a wire-safe envelope gives exactly that envelope back, every
/// field preserved.
#[verifier::rlimit(100)]
pub proof fn lemma_codec_round_trip(e: EnvelopeV)
    requires
        wire_safe(e),
    ensures
        spec_decode(spec_encode(e)) == Some(e),
{
    let s = spec_encode(e);
    lemma_envelope_prefix(e);
    let j: int = 7;
    let k = j + sp_quoted_id(e.src).len();
    let m = k + "\"dest\""@.len() + 2;
    let p2 = m + sp_quoted_id(e.dest).len();
    let q = p2 + "\"body\""@.len() + 2;
    lemma_body_at(s, q, e.body, seq!['}']);
    lemma_advance(s, q, spec_encode_body(e.body), seq!['}']);
    let r_b = q + spec_encode_body(e.body).len();
    assert(seq!['}'] + Seq::<char>::empty() =~= seq!['}']);
    lemma_head(s, r_b, seq!['}'], Seq::empty());
    lemma_ws_none(s, r_b);
    assert(r_b + 1 == s.len());
    lemma_ws_none(s, r_b + 1);
    assert(EnvelopeV { src: e.src, dest: e.dest, body: e.body } == e);
}

} // verus!
