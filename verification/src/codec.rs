//! The persistence format: a pretty-printed JSON document
//! `{ "all_tasks": [ { "id": .., "message": .., "status": .. }, .. ] }`
//! with two-space indentation, exactly as the store has always been
//! written to disk.
//!
//! The format is specified to the character by [`ser_store`];
//! [`to_json`] produces exactly that text, and [`from_json`] accepts
//! exactly that text: whatever it returns re-serializes to its input
//! byte for byte, so a load followed by a save can never change the
//! file.

use vstd::prelude::*;
use crate::dispatch::str_is;
use crate::num::{digit_val, digits_val, is_digit, lemma_digits_val_prefix};
use crate::store::{wf_tasks, Error, Status, Task, TaskHolder, TaskView};

verus! {

/// The character for one decimal digit value.
pub open spec fn digit_char(d: int) -> char {
    ((d + 48) as u8) as char
}

/// The character for one hexadecimal digit value, lower case.
pub open spec fn hex_char(d: int) -> char {
    if d < 10 {
        digit_char(d)
    } else {
        ((d + 87) as u8) as char
    }
}

/// The decimal digits of `n`, most significant first.
pub open spec fn dec_u(n: int) -> Seq<char>
    decreases n,
{
    if n < 10 {
        seq![digit_char(n)]
    } else {
        dec_u(n / 10).push(digit_char(n % 10))
    }
}

/// How one character appears inside a JSON string: quote and
/// backslash escaped, the common control characters by letter, the
/// rest of the control characters numerically, anything else as
/// itself.
pub open spec fn esc_char(c: char) -> Seq<char> {
    if c == '"' {
        "\\\""@
    } else if c == '\\' {
        "\\\\"@
    } else if c == '\u{8}' {
        "\\b"@
    } else if c == '\t' {
        "\\t"@
    } else if c == '\n' {
        "\\n"@
    } else if c == '\u{c}' {
        "\\f"@
    } else if c == '\r' {
        "\\r"@
    } else if (c as int) < 32 {
        "\\u00"@ + seq![hex_char(c as int / 16), hex_char(c as int % 16)]
    } else {
        seq![c]
    }
}

/// A message as it appears inside its JSON string quotes.
pub open spec fn esc(s: Seq<char>) -> Seq<char>
    decreases s.len(),
{
    if s.len() == 0 {
        Seq::empty()
    } else {
        esc(s.drop_last()) + esc_char(s.last())
    }
}

/// The JSON name of a status.
pub open spec fn status_str(st: Status) -> Seq<char> {
    match st {
        Status::Done => "Done"@,
        Status::InProgress => "InProgress"@,
        Status::ToDo => "ToDo"@,
    }
}

/// One task as a JSON object, indented for its place in the task
/// array.
pub open spec fn ser_task(t: TaskView) -> Seq<char> {
    "{\n      \"id\": "@ + dec_u(t.id) + ",\n      \"message\": \""@ + esc(t.message)
        + "\",\n      \"status\": \""@ + status_str(t.status) + "\"\n    }"@
}

/// The elements of the task array, comma-separated, each on its own
/// indented lines.
pub open spec fn ser_tasks(ts: Seq<TaskView>) -> Seq<char>
    decreases ts.len(),
{
    if ts.len() == 0 {
        Seq::empty()
    } else if ts.len() == 1 {
        "    "@ + ser_task(ts[0])
    } else {
        ser_tasks(ts.drop_last()) + ",\n    "@ + ser_task(ts.last())
    }
}

/// The whole persistence document for a task sequence.
pub open spec fn ser_store(ts: Seq<TaskView>) -> Seq<char> {
    if ts.len() == 0 {
        "{\n  \"all_tasks\": []\n}"@
    } else {
        "{\n  \"all_tasks\": [\n"@ + ser_tasks(ts) + "\n  ]\n}"@
    }
}

/// The tail of the task array from element `k` on: the remaining
/// tasks joined by the array separator.
pub open spec fn rest_tasks(ts: Seq<TaskView>, k: int) -> Seq<char>
    decreases ts.len() - k,
{
    if k < 0 || k >= ts.len() {
        Seq::empty()
    } else if k == ts.len() - 1 {
        ser_task(ts[k])
    } else {
        ser_task(ts[k]) + ",\n    "@ + rest_tasks(ts, k + 1)
    }
}

/// The digits of a number are digits, and read back as the number.
proof fn lemma_dec_u_digits(n: int)
    requires
        n >= 0,
    ensures
        dec_u(n).len() >= 1,
        forall|t: int| 0 <= t < dec_u(n).len() ==> is_digit(#[trigger] dec_u(n)[t]),
        digits_val(dec_u(n)) == n,
    decreases n,
{
    if n < 10 {
        let d = dec_u(n);
        assert(d == seq![digit_char(n)]);
        assert(digit_char(n) as int == n + 48);
        assert(d.drop_last() =~= Seq::<char>::empty());
        assert(d.last() == digit_char(n));
        assert(digits_val(Seq::<char>::empty()) == 0);
        assert(digits_val(d) == digit_val(digit_char(n)));
    } else {
        lemma_dec_u_digits(n / 10);
        let d = dec_u(n);
        assert(d == dec_u(n / 10).push(digit_char(n % 10)));
        assert(d.drop_last() =~= dec_u(n / 10));
        assert(digit_char(n % 10) as int == n % 10 + 48);
        assert(digits_val(d) == digits_val(dec_u(n / 10)) * 10 + digit_val(digit_char(n % 10)));
    }
}

/// Escaping distributes over concatenation.
proof fn lemma_esc_concat(a: Seq<char>, b: Seq<char>)
    ensures
        esc(a + b) == esc(a) + esc(b),
    decreases b.len(),
{
    if b.len() == 0 {
        assert(a + b =~= a);
        assert(esc(a) + esc(b) =~= esc(a));
    } else {
        lemma_esc_concat(a, b.drop_last());
        assert((a + b).drop_last() =~= a + b.drop_last());
        assert((a + b).last() == b.last());
        assert(esc(a) + esc(b) =~= (esc(a) + esc(b.drop_last())) + esc_char(b.last()));
    }
}

/// An escaped message splits at any position of the original.
proof fn lemma_esc_split(m: Seq<char>, p: int)
    requires
        0 <= p <= m.len(),
    ensures
        esc(m) == esc(m.take(p)) + esc(m.skip(p)),
{
    assert(m =~= m.take(p) + m.skip(p));
    lemma_esc_concat(m.take(p), m.skip(p));
}

/// Escaping one more character appends its escape.
proof fn lemma_esc_step(m: Seq<char>, p: int)
    requires
        0 <= p < m.len(),
    ensures
        esc(m.take(p + 1)) == esc(m.take(p)) + esc_char(m[p]),
{
    assert(m.take(p + 1).drop_last() =~= m.take(p));
    assert(m.take(p + 1).last() == m[p]);
}

/// A text without quotes, backslashes or control characters escapes
/// to itself.
proof fn lemma_esc_plain(m: Seq<char>)
    requires
        forall|t: int|
            0 <= t < m.len() ==> 32 <= (#[trigger] m[t]) as int && m[t] != '"' && m[t] != '\\',
    ensures
        esc(m) == m,
    decreases m.len(),
{
    if m.len() > 0 {
        assert(forall|t: int|
            0 <= t < m.drop_last().len() ==> 32 <= (#[trigger] m.drop_last()[t]) as int
                && m.drop_last()[t] != '"' && m.drop_last()[t] != '\\');
        lemma_esc_plain(m.drop_last());
        assert(esc_char(m.last()) == seq![m.last()]);
        assert(esc(m) =~= m);
    }
}

/// Dropping the last task moves it out of the tail join.
proof fn lemma_rest_drop_last(ts: Seq<TaskView>, k: int)
    requires
        ts.len() >= 2,
        0 <= k < ts.len() - 1,
    ensures
        rest_tasks(ts, k) == rest_tasks(ts.drop_last(), k) + ",\n    "@ + ser_task(ts.last()),
    decreases ts.len() - k,
{
    if k == ts.len() - 2 {
        assert(ts.drop_last()[k] == ts[k]);
        assert(rest_tasks(ts.drop_last(), k) == ser_task(ts[k]));
        assert(rest_tasks(ts, k + 1) == ser_task(ts[k + 1]));
        assert(rest_tasks(ts, k) == ser_task(ts[k]) + ",\n    "@ + ser_task(ts[ts.len() - 1]));
    } else {
        lemma_rest_drop_last(ts, k + 1);
        assert(ts.drop_last()[k] == ts[k]);
        assert(rest_tasks(ts, k) =~= rest_tasks(ts.drop_last(), k) + ",\n    "@ + ser_task(
            ts.last(),
        ));
    }
}

/// The back-to-front array serialization equals the indented
/// front-to-back join the reader follows.
proof fn lemma_ser_tasks_rest(ts: Seq<TaskView>)
    requires
        ts.len() > 0,
    ensures
        ser_tasks(ts) == "    "@ + rest_tasks(ts, 0),
    decreases ts.len(),
{
    if ts.len() == 1 {
        assert(rest_tasks(ts, 0) == ser_task(ts[0]));
    } else {
        lemma_ser_tasks_rest(ts.drop_last());
        lemma_rest_drop_last(ts, 0);
        assert(ser_tasks(ts) =~= "    "@ + rest_tasks(ts, 0));
    }
}

/// Splitting a known suffix of `s` into its head part and tail part.
proof fn lemma_peel(s: Seq<char>, i: int, x: Seq<char>, y: Seq<char>)
    requires
        0 <= i <= s.len(),
        s.subrange(i, s.len() as int) == x + y,
    ensures
        i + x.len() + y.len() == s.len(),
        s.subrange(i, i + x.len()) == x,
        s.subrange(i + x.len(), s.len() as int) == y,
{
    assert(s.subrange(i, s.len() as int).len() == x.len() + y.len());
    assert(s.subrange(i, i + x.len()) =~= x);
    assert forall|t: int| 0 <= t < y.len() implies s[i + x.len() + t] == y[t] by {
        assert(s.subrange(i, s.len() as int)[x.len() + t] == s[i + x.len() + t]);
        assert((x + y)[x.len() + t] == y[t]);
    }
    assert(s.subrange(i + x.len(), s.len() as int) =~= y);
}

/// Relies on String::push: appends exactly the one character.
#[verifier::external_body]
pub(crate) fn push_char(s: &mut String, c: char)
    ensures
        final(s)@ == old(s)@.push(c),
{
    s.push(c);
}

/// Append the decimal digits of `n`.
fn push_dec(out: &mut String, n: i32)
    requires
        n >= 0,
    ensures
        final(out)@ == old(out)@ + dec_u(n as int),
    decreases n,
{
    if n >= 10 {
        push_dec(out, n / 10);
    }
    let d: u8 = (n % 10) as u8 + 48;
    push_char(out, d as char);
    proof {
        assert(old(out)@ + dec_u(n as int) =~= final(out)@);
    }
}

/// Append the escaped form of the message.
fn push_escaped(out: &mut String, s: &str)
    ensures
        final(out)@ == old(out)@ + esc(s@),
{
    let len = s.unicode_len();
    let mut i: usize = 0;
    proof {
        assert(old(out)@ + esc(s@.take(0)) =~= old(out)@);
    }
    while i < len
        invariant
            i <= len,
            len == s@.len(),
            out@ == old(out)@ + esc(s@.take(i as int)),
        decreases len - i,
    {
        let c = s.get_char(i);
        if c == '"' {
            out.append("\\\"");
        } else if c == '\\' {
            out.append("\\\\");
        } else if c == '\u{8}' {
            out.append("\\b");
        } else if c == '\t' {
            out.append("\\t");
        } else if c == '\n' {
            out.append("\\n");
        } else if c == '\u{c}' {
            out.append("\\f");
        } else if c == '\r' {
            out.append("\\r");
        } else if (c as u32) < 32 {
            out.append("\\u00");
            let v = c as u32;
            let hi: u32 = v / 16;
            let lo: u32 = v % 16;
            let hc: u8 = if hi < 10 {
                hi as u8 + 48
            } else {
                hi as u8 + 87
            };
            let lc: u8 = if lo < 10 {
                lo as u8 + 48
            } else {
                lo as u8 + 87
            };
            push_char(out, hc as char);
            push_char(out, lc as char);
        } else {
            push_char(out, c);
        }
        proof {
            let t = s@.take(i + 1);
            assert(t.drop_last() =~= s@.take(i as int));
            assert(t.last() == c);
            assert(out@ =~= old(out)@ + esc(t));
        }
        i += 1;
    }
    proof {
        assert(s@.take(len as int) =~= s@);
    }
}

/// Append one task object.
fn push_task(out: &mut String, t: &Task)
    requires
        t@.id >= 0,
    ensures
        final(out)@ == old(out)@ + ser_task(t@),
{
    out.append("{\n      \"id\": ");
    push_dec(out, t.id);
    out.append(",\n      \"message\": \"");
    push_escaped(out, t.message.as_str());
    out.append("\",\n      \"status\": \"");
    match t.status {
        Status::Done => out.append("Done"),
        Status::InProgress => out.append("InProgress"),
        Status::ToDo => out.append("ToDo"),
    }
    out.append("\"\n    }");
    proof {
        assert(final(out)@ =~= old(out)@ + ser_task(t@));
    }
}

/// Serialize a well-formed store to exactly its persistence document.
pub fn to_json(h: &TaskHolder) -> (r: String)
    requires
        h.wf(),
    ensures
        r@ == ser_store(h@),
{
    let n = h.all_tasks.len();
    let mut out = String::new();
    if n == 0 {
        out.append("{\n  \"all_tasks\": []\n}");
        proof {
            assert(out@ =~= ser_store(h@));
        }
        return out;
    }
    out.append("{\n  \"all_tasks\": [\n");
    let mut i: usize = 0;
    while i < n
        invariant
            0 <= i <= n,
            n == h@.len(),
            h.wf(),
            out@ == "{\n  \"all_tasks\": [\n"@ + ser_tasks(h@.take(i as int)),
        decreases n - i,
    {
        if i == 0 {
            out.append("    ");
        } else {
            out.append(",\n    ");
        }
        proof {
            assert(h@[i as int] == h.all_tasks@[i as int]@);
            assert(1 <= h@[i as int].id);
        }
        push_task(&mut out, &h.all_tasks[i]);
        proof {
            let t = h@.take(i + 1);
            assert(t.drop_last() =~= h@.take(i as int));
            assert(t.last() == h@[i as int]);
            if i == 0 {
                assert(ser_tasks(t) == "    "@ + ser_task(t[0]));
                assert(out@ =~= "{\n  \"all_tasks\": [\n"@ + ser_tasks(t));
            } else {
                assert(ser_tasks(t) == ser_tasks(t.drop_last()) + ",\n    "@ + ser_task(t.last()));
                assert(out@ =~= "{\n  \"all_tasks\": [\n"@ + ser_tasks(t));
            }
        }
        i += 1;
    }
    out.append("\n  ]\n}");
    proof {
        assert(h@.take(n as int) =~= h@);
        assert(out@ =~= ser_store(h@));
    }
    out
}

/// Does the store satisfy its identifier invariant?  The surrounding
/// binary uses this to guard a save.
pub fn check_wf(h: &TaskHolder) -> (r: bool)
    ensures
        r == h.wf(),
{
    let n = h.all_tasks.len();
    let mut i: usize = 0;
    let mut prev: i32 = 0;
    while i < n
        invariant
            0 <= i <= n,
            n == h@.len(),
            wf_tasks(h@.take(i as int)),
            i > 0 ==> prev as int == h@[i - 1].id && 1 <= prev,
            i == 0 ==> prev == 0,
        decreases n - i,
    {
        proof {
            assert(h@[i as int] == h.all_tasks@[i as int]@);
        }
        let id = h.all_tasks[i].id;
        if id < 1 || id <= prev {
            proof {
                if id >= 1 {
                    assert(h@[i - 1].id >= h@[i as int].id);
                }
                assert(!wf_tasks(h@));
            }
            return false;
        }
        proof {
            let t = h@.take(i + 1);
            assert(t.drop_last() =~= h@.take(i as int));
            assert forall|a: int, b: int| 0 <= a < b < t.len() implies t[a].id < t[b].id by {
                if b == i {
                    if a < i - 1 {
                        assert(h@.take(i as int)[a].id < h@.take(i as int)[i - 1].id);
                    }
                } else {
                    assert(h@.take(i as int)[a].id < h@.take(i as int)[b].id);
                }
            }
            assert(wf_tasks(t));
        }
        prev = id;
        i += 1;
    }
    proof {
        assert(h@.take(n as int) =~= h@);
    }
    true
}

/// Parse a persistence document.  Exactly the canonical documents are
/// accepted: a returned store is well-formed and re-serializes to the
/// input byte for byte, so saving it rewrites the file unchanged.
/// Anything else — other spacing, other field order, trailing text,
/// malformed content — is a `Parse` error.  So parsing succeeds if
/// and only if the input is the document of some well-formed store,
/// and then returns exactly that store.
pub fn from_json(s: &str) -> (r: Result<TaskHolder, Error>)
    ensures
        match r {
            Ok(h) => h.wf() && s@ == ser_store(h@),
            Err(e) => e == Error::Parse,
        },
        (exists|ts: Seq<TaskView>| wf_tasks(ts) && s@ == ser_store(ts)) ==> r is Ok,
{
    let ghost w: Option<Seq<TaskView>> = if exists|ts: Seq<TaskView>|
        wf_tasks(ts) && s@ == ser_store(ts) {
        Option::Some(choose|ts: Seq<TaskView>| wf_tasks(ts) && s@ == ser_store(ts))
    } else {
        Option::None
    };
    match scan(s, Ghost(w)) {
        Option::None => Err(Error::Parse),
        Option::Some(h) => {
            if !check_wf(&h) {
                return Err(Error::Parse);
            }
            let out = to_json(&h);
            if out.eq(&s.to_owned()) {
                Ok(h)
            } else {
                Err(Error::Parse)
            }
        },
    }
}

/// Compare the next characters against `lit`: the cursor past them
/// exactly when they are there.
fn expect_lit(s: &str, i: usize, lit: &str) -> (r: Option<usize>)
    requires
        i <= s@.len(),
    ensures
        match r {
            Some(j) => j == i + lit@.len() && i + lit@.len() <= s@.len() && s@.subrange(
                i as int,
                i + lit@.len(),
            ) == lit@,
            None => !(i + lit@.len() <= s@.len() && s@.subrange(i as int, i + lit@.len())
                == lit@),
        },
{
    let n = lit.unicode_len();
    let len = s.unicode_len();
    if n > len - i {
        return None;
    }
    let mut k: usize = 0;
    while k < n
        invariant
            k <= n,
            i + n <= len,
            len == s@.len(),
            n == lit@.len(),
            forall|t: int| 0 <= t < k ==> s@[i + t] == lit@[t],
        decreases n - k,
    {
        if s.get_char(i + k) != lit.get_char(k) {
            proof {
                if s@.subrange(i as int, i + lit@.len()) == lit@ {
                    assert(s@.subrange(i as int, i + lit@.len())[k as int] == s@[i + k]);
                }
            }
            return None;
        }
        k += 1;
    }
    proof {
        assert(s@.subrange(i as int, i + lit@.len()) =~= lit@);
    }
    Some(i + n)
}

/// Read a run of decimal digits as an id value.  When the ghost
/// argument names a value whose digits stand at the cursor, followed
/// by a non-digit, exactly those digits are read and yield it.
fn read_digits(s: &str, i: usize, Ghost(gn): Ghost<Option<int>>) -> (r: Option<(i32, usize)>)
    requires
        i <= s@.len(),
        gn matches Some(n) ==> 0 <= n <= i32::MAX && i + dec_u(n).len() < s@.len()
            && s@.subrange(i as int, i + dec_u(n).len()) == dec_u(n)
            && !is_digit(s@[i + dec_u(n).len()]),
    ensures
        match r {
            Some(p) => i < p.1 <= s@.len(),
            None => true,
        },
        gn matches Some(n) ==> (r matches Some(p) && p.0 == n && p.1 == i + dec_u(n).len()),
{
    proof {
        if let Option::Some(n) = gn {
            lemma_dec_u_digits(n);
        }
    }
    let len = s.unicode_len();
    let mut j = i;
    let mut acc: i64 = 0;
    while j < len
        invariant
            i <= j <= len,
            len == s@.len(),
            0 <= acc <= 0x7fffffff,
            gn matches Some(n) ==> 0 <= n <= i32::MAX && i + dec_u(n).len() < s@.len()
                && s@.subrange(i as int, i + dec_u(n).len()) == dec_u(n)
                && !is_digit(s@[i + dec_u(n).len()]),
            gn matches Some(n) ==> j - i <= dec_u(n).len(),
            gn matches Some(n) ==> acc == digits_val(dec_u(n).take(j - i)),
        decreases len - j,
    {
        let c = s.get_char(j);
        let d = c as u32;
        proof {
            if let Option::Some(n) = gn {
                lemma_dec_u_digits(n);
                let q = j - i;
                if q < dec_u(n).len() {
                    assert(s@.subrange(i as int, i + dec_u(n).len())[q] == s@[j as int]);
                    assert(c == dec_u(n)[q]);
                    assert(is_digit(c));
                } else {
                    assert(c == s@[i + dec_u(n).len()]);
                    assert(!is_digit(c));
                }
            }
        }
        if d < 48 || d > 57 {
            if j == i {
                return None;
            }
            proof {
                if let Option::Some(n) = gn {
                    assert(j - i == dec_u(n).len());
                    assert(dec_u(n).take(j - i) =~= dec_u(n));
                }
            }
            return Some((acc as i32, j));
        }
        proof {
            if let Option::Some(n) = gn {
                let q = j - i;
                let t = dec_u(n).take(q + 1);
                assert(t.drop_last() =~= dec_u(n).take(q as int));
                assert(t.last() == dec_u(n)[q]);
                lemma_digits_val_prefix(dec_u(n), q + 1);
            }
        }
        acc = acc * 10 + ((d - 48) as i64);
        if acc > 0x7fffffff {
            return None;
        }
        j += 1;
    }
    proof {
        if let Option::Some(n) = gn {
            assert(i + (j - i) == len);
            assert(false);
        }
    }
    if j == i {
        return None;
    }
    Some((acc as i32, j))
}

/// How each character class escapes, and that the first character of
/// an escape tells the classes apart: never a quote, a backslash
/// exactly for the escaped classes.
proof fn lemma_esc_char_cases(c: char)
    ensures
        esc_char(c).len() >= 1,
        esc_char(c)[0] != '"',
        (esc_char(c)[0] == '\\') <==> (c == '"' || c == '\\' || (c as int) < 32),
        c == '"' ==> esc_char(c) == seq!['\\', '"'],
        c == '\\' ==> esc_char(c) == seq!['\\', '\\'],
        c == '\u{8}' ==> esc_char(c) == seq!['\\', 'b'],
        c == '\t' ==> esc_char(c) == seq!['\\', 't'],
        c == '\n' ==> esc_char(c) == seq!['\\', 'n'],
        c == '\u{c}' ==> esc_char(c) == seq!['\\', 'f'],
        c == '\r' ==> esc_char(c) == seq!['\\', 'r'],
        ((c as int) < 32 && c != '\u{8}' && c != '\t' && c != '\n' && c != '\u{c}' && c != '\r')
            ==> esc_char(c) == seq![
            '\\',
            'u',
            '0',
            '0',
            hex_char(c as int / 16),
            hex_char(c as int % 16),
        ],
        !(c == '"' || c == '\\' || (c as int) < 32) ==> esc_char(c) == seq![c],
{
    reveal_strlit("\\\"");
    reveal_strlit("\\\\");
    reveal_strlit("\\b");
    reveal_strlit("\\t");
    reveal_strlit("\\n");
    reveal_strlit("\\f");
    reveal_strlit("\\r");
    reveal_strlit("\\u00");
    if c == '"' {
        assert(esc_char(c) =~= seq!['\\', '"']);
    } else if c == '\\' {
        assert(esc_char(c) =~= seq!['\\', '\\']);
    } else if c == '\u{8}' {
        assert(esc_char(c) =~= seq!['\\', 'b']);
    } else if c == '\t' {
        assert(esc_char(c) =~= seq!['\\', 't']);
    } else if c == '\n' {
        assert(esc_char(c) =~= seq!['\\', 'n']);
    } else if c == '\u{c}' {
        assert(esc_char(c) =~= seq!['\\', 'f']);
    } else if c == '\r' {
        assert(esc_char(c) =~= seq!['\\', 'r']);
    } else if (c as int) < 32 {
        assert(esc_char(c) =~= seq![
            '\\',
            'u',
            '0',
            '0',
            hex_char(c as int / 16),
            hex_char(c as int % 16),
        ]);
    } else {
        assert(esc_char(c) =~= seq![c]);
    }
}

/// A character's code point is never negative.
proof fn lemma_char_nonneg(c: char)
    ensures
        0 <= c as int,
{
}

/// The value of one hexadecimal digit character, or 16 for any other
/// character.
fn hex_digit_val(c: char) -> (r: u32)
    ensures
        r <= 16,
        48 <= c as int <= 57 ==> r == c as int - 48,
        97 <= c as int <= 102 ==> r == c as int - 87,
        65 <= c as int <= 70 ==> r == c as int - 55,
{
    let d = c as u32;
    if 48 <= d && d <= 57 {
        d - 48
    } else if 97 <= d && d <= 102 {
        d - 87
    } else if 65 <= d && d <= 70 {
        d - 55
    } else {
        16
    }
}

/// Read a JSON string body starting after its opening quote, undoing
/// escapes; the cursor ends on the closing quote.  When the ghost
/// argument names a text whose escaped form stands at the cursor,
/// followed by a quote, exactly that text is read back.
fn read_string(s: &str, i: usize, Ghost(gm): Ghost<Option<Seq<char>>>) -> (r: Option<
    (String, usize),
>)
    requires
        i <= s@.len(),
        gm matches Some(m) ==> i + esc(m).len() < s@.len() && s@.subrange(
            i as int,
            i + esc(m).len(),
        ) == esc(m) && s@[i + esc(m).len()] == '"',
    ensures
        match r {
            Some(p) => i <= p.1 <= s@.len(),
            None => true,
        },
        gm matches Some(m) ==> (r matches Some(p) && p.0@ == m && p.1 == i + esc(m).len()),
{
    let len = s.unicode_len();
    let mut j = i;
    let mut out = String::new();
    let ghost mut p: int = 0;
    proof {
        if let Option::Some(m) = gm {
            assert(out@ =~= m.take(0));
            assert(esc(m.take(0)) =~= Seq::<char>::empty());
        }
    }
    while j < len
        invariant
            i <= j <= len,
            len == s@.len(),
            gm matches Some(m) ==> 0 <= p <= m.len(),
            gm matches Some(m) ==> out@ == m.take(p),
            gm matches Some(m) ==> j == i + esc(m.take(p)).len(),
            gm matches Some(m) ==> i + esc(m).len() < s@.len() && s@.subrange(
                i as int,
                i + esc(m).len(),
            ) == esc(m) && s@[i + esc(m).len()] == '"',
        decreases len - j,
    {
        let c = s.get_char(j);
        proof {
            if let Option::Some(m) = gm {
                lemma_esc_split(m, p);
                if p < m.len() {
                    lemma_esc_step(m, p);
                    lemma_esc_split(m, p + 1);
                    lemma_esc_char_cases(m[p]);
                    assert(esc(m) == esc(m.take(p + 1)) + esc(m.skip(p + 1)));
                    assert forall|t: int| 0 <= t < esc_char(m[p]).len() implies s@[j + t]
                        == esc_char(m[p])[t] by {
                        assert(esc(m.take(p + 1))[esc(m.take(p)).len() + t] == esc_char(m[p])[t]);
                        assert(esc(m)[j - i + t] == esc(m.take(p + 1))[j - i + t]);
                        assert(s@.subrange(i as int, i + esc(m).len())[j - i + t] == s@[j + t]);
                    }
                    assert(j + esc_char(m[p]).len() <= i + esc(m).len());
                    assert(c == esc_char(m[p])[0]);
                } else {
                    assert(m.take(p) =~= m);
                    assert(j == i + esc(m).len());
                    assert(c == '"');
                }
            }
        }
        if c == '"' {
            proof {
                if let Option::Some(m) = gm {
                    if p < m.len() {
                        assert(false);
                    }
                    assert(m.take(p) =~= m);
                }
            }
            return Some((out, j));
        } else if c == '\\' {
            if len - j < 2 {
                proof {
                    if let Option::Some(m) = gm {
                        assert(false);
                    }
                }
                return None;
            }
            let e = s.get_char(j + 1);
            proof {
                if let Option::Some(m) = gm {
                    assert(e == esc_char(m[p])[1]);
                }
            }
            if e == '"' {
                push_char(&mut out, '"');
                j += 2;
                proof {
                    if let Option::Some(m) = gm {
                        assert(m[p] == '"');
                        assert(out@ =~= m.take(p + 1));
                        p = p + 1;
                    }
                }
            } else if e == '\\' {
                push_char(&mut out, '\\');
                j += 2;
                proof {
                    if let Option::Some(m) = gm {
                        assert(m[p] == '\\');
                        assert(out@ =~= m.take(p + 1));
                        p = p + 1;
                    }
                }
            } else if e == 'b' {
                push_char(&mut out, '\u{8}');
                j += 2;
                proof {
                    if let Option::Some(m) = gm {
                        assert(m[p] == '\u{8}');
                        assert(out@ =~= m.take(p + 1));
                        p = p + 1;
                    }
                }
            } else if e == 't' {
                push_char(&mut out, '\t');
                j += 2;
                proof {
                    if let Option::Some(m) = gm {
                        assert(m[p] == '\t');
                        assert(out@ =~= m.take(p + 1));
                        p = p + 1;
                    }
                }
            } else if e == 'n' {
                push_char(&mut out, '\n');
                j += 2;
                proof {
                    if let Option::Some(m) = gm {
                        assert(m[p] == '\n');
                        assert(out@ =~= m.take(p + 1));
                        p = p + 1;
                    }
                }
            } else if e == 'f' {
                push_char(&mut out, '\u{c}');
                j += 2;
                proof {
                    if let Option::Some(m) = gm {
                        assert(m[p] == '\u{c}');
                        assert(out@ =~= m.take(p + 1));
                        p = p + 1;
                    }
                }
            } else if e == 'r' {
                push_char(&mut out, '\r');
                j += 2;
                proof {
                    if let Option::Some(m) = gm {
                        assert(m[p] == '\r');
                        assert(out@ =~= m.take(p + 1));
                        p = p + 1;
                    }
                }
            } else if e == 'u' {
                if len - j < 6 {
                    proof {
                        if let Option::Some(m) = gm {
                            assert(false);
                        }
                    }
                    return None;
                }
                let h0 = hex_digit_val(s.get_char(j + 2));
                let h1 = hex_digit_val(s.get_char(j + 3));
                let h2 = hex_digit_val(s.get_char(j + 4));
                let h3 = hex_digit_val(s.get_char(j + 5));
                proof {
                    if let Option::Some(m) = gm {
                        assert(p < m.len());
                        lemma_esc_char_cases(m[p]);
                        assert(m[p] == '"' || m[p] == '\\' || (m[p] as int) < 32);
                        assert(m[p] != '"' && m[p] != '\\');
                        assert(m[p] != '\u{8}' && m[p] != '\t' && m[p] != '\n' && m[p] != '\u{c}'
                            && m[p] != '\r');
                        let x = m[p] as int;
                        lemma_char_nonneg(m[p]);
                        assert(0 <= x < 32);
                        assert(0 <= x / 16 < 10 && 0 <= x % 16 < 16);
                        assert(hex_char(x / 16) == (((x / 16 + 48) as u8) as char));
                        assert((((x / 16 + 48) as u8) as char) as int == x / 16 + 48);
                        if x % 16 < 10 {
                            assert(hex_char(x % 16) == (((x % 16 + 48) as u8) as char));
                            assert((((x % 16 + 48) as u8) as char) as int == x % 16 + 48);
                        } else {
                            assert(hex_char(x % 16) == (((x % 16 + 87) as u8) as char));
                            assert((((x % 16 + 87) as u8) as char) as int == x % 16 + 87);
                        }
                        assert(h0 == 0 && h1 == 0);
                        assert(h2 == x / 16 && h3 == x % 16);
                    }
                }
                if h0 >= 16 || h1 >= 16 || h2 >= 16 || h3 >= 16 {
                    proof {
                        if let Option::Some(m) = gm {
                            assert(false);
                        }
                    }
                    return None;
                }
                let v = h0 * 4096 + h1 * 256 + h2 * 16 + h3;
                if v > 255 {
                    proof {
                        if let Option::Some(m) = gm {
                            assert(false);
                        }
                    }
                    return None;
                }
                push_char(&mut out, (v as u8) as char);
                j += 6;
                proof {
                    if let Option::Some(m) = gm {
                        assert(((v as u8) as char) as int == m[p] as int);
                        assert((v as u8) as char == m[p]);
                        assert(out@ =~= m.take(p + 1));
                        p = p + 1;
                    }
                }
            } else {
                proof {
                    if let Option::Some(m) = gm {
                        assert(false);
                    }
                }
                return None;
            }
        } else {
            push_char(&mut out, c);
            j += 1;
            proof {
                if let Option::Some(m) = gm {
                    assert(m[p] == c);
                    assert(out@ =~= m.take(p + 1));
                    p = p + 1;
                }
            }
        }
    }
    proof {
        if let Option::Some(m) = gm {
            lemma_esc_split(m, p);
            assert(false);
        }
    }
    None
}

/// The three status names escape to themselves, and no two are the
/// same text.
proof fn lemma_status_names()
    ensures
        forall|st: Status| #[trigger] esc(status_str(st)) == status_str(st),
        status_str(Status::Done) != status_str(Status::InProgress),
        status_str(Status::Done) != status_str(Status::ToDo),
        status_str(Status::InProgress) != status_str(Status::ToDo),
{
    reveal_strlit("Done");
    reveal_strlit("InProgress");
    reveal_strlit("ToDo");
    assert forall|st: Status| #[trigger] esc(status_str(st)) == status_str(st) by {
        let m = status_str(st);
        assert forall|t: int|
            0 <= t < m.len() implies 32 <= (#[trigger] m[t]) as int && m[t] != '"' && m[t]
            != '\\' by {
            match st {
                Status::Done => {
                    assert(m == "Done"@);
                },
                Status::InProgress => {
                    assert(m == "InProgress"@);
                },
                Status::ToDo => {
                    assert(m == "ToDo"@);
                },
            }
        }
        lemma_esc_plain(m);
    }
    assert(status_str(Status::Done)[0] == 'D');
    assert(status_str(Status::ToDo)[0] == 'T');
    assert(status_str(Status::InProgress).len() == 10);
}

/// Read the canonical document into a store candidate; the caller
/// checks the candidate by re-serializing it.  When the ghost
/// argument names a well-formed store whose document the input is,
/// exactly that store is read back.
#[verifier::rlimit(80)]
fn scan(s: &str, Ghost(w): Ghost<Option<Seq<TaskView>>>) -> (r: Option<TaskHolder>)
    requires
        w matches Some(ts) ==> wf_tasks(ts) && s@ == ser_store(ts),
    ensures
        w matches Some(ts) ==> (r matches Some(h) && h@ == ts),
{
    let len = s.unicode_len();
    match expect_lit(s, 0, "{\n  \"all_tasks\": []\n}") {
        Some(j) => {
            if j == len {
                let h = TaskHolder { all_tasks: Vec::new() };
                proof {
                    assert(h@ =~= Seq::<TaskView>::empty());
                    if let Option::Some(ts) = w {
                        if ts.len() > 0 {
                            reveal_strlit("{\n  \"all_tasks\": []\n}");
                            reveal_strlit("{\n  \"all_tasks\": [\n");
                            assert(s@[18] == "{\n  \"all_tasks\": [\n"@[18]);
                            assert(s@.subrange(0, ("{\n  \"all_tasks\": []\n}"@).len() as int)[18]
                                == s@[18]);
                            assert(false);
                        }
                        assert(ts =~= Seq::<TaskView>::empty());
                    }
                }
                return Some(h);
            } else {
                proof {
                    if let Option::Some(ts) = w {
                        if ts.len() == 0 {
                            assert(false);
                        } else {
                            reveal_strlit("{\n  \"all_tasks\": []\n}");
                            reveal_strlit("{\n  \"all_tasks\": [\n");
                            assert(s@[18] == "{\n  \"all_tasks\": [\n"@[18]);
                            assert(s@.subrange(0, ("{\n  \"all_tasks\": []\n}"@).len() as int)[18]
                                == s@[18]);
                            assert(false);
                        }
                    }
                }
                return None;
            }
        },
        None => {},
    }
    proof {
        if let Option::Some(ts) = w {
            if ts.len() == 0 {
                assert(s@.subrange(0, s@.len() as int) =~= s@);
                assert(false);
            }
            lemma_ser_tasks_rest(ts);
            assert(s@.subrange(0, s@.len() as int) =~= s@);
            assert(s@ =~= "{\n  \"all_tasks\": [\n"@ + ("    "@ + (rest_tasks(ts, 0)
                + "\n  ]\n}"@)));
            lemma_peel(s@, 0, "{\n  \"all_tasks\": [\n"@, "    "@ + (rest_tasks(ts, 0)
                + "\n  ]\n}"@));
        }
    }
    let mut i: usize = match expect_lit(s, 0, "{\n  \"all_tasks\": [\n") {
        None => {
            return None;
        },
        Some(j) => j,
    };
    proof {
        if let Option::Some(ts) = w {
            lemma_peel(s@, i as int, "    "@, rest_tasks(ts, 0) + "\n  ]\n}"@);
        }
    }
    i = match expect_lit(s, i, "    ") {
        None => {
            return None;
        },
        Some(j) => j,
    };
    let mut tasks: Vec<Task> = Vec::new();
    let ghost mut k: int = 0;
    proof {
        if let Option::Some(ts) = w {
            assert(tasks@.map_values(|t: Task| t@) =~= ts.take(0));
        }
    }
    loop
        invariant
            i <= s@.len(),
            len == s@.len(),
            w matches Some(ts) ==> wf_tasks(ts) && 0 <= k < ts.len() && tasks@.map_values(
                |t: Task| t@,
            ) == ts.take(k) && s@.subrange(i as int, len as int) == rest_tasks(ts, k)
                + "\n  ]\n}"@,
        decreases len - i,
    {
        let ghost tk: TaskView = match w {
            Option::Some(ts) => ts[k],
            Option::None => TaskView { id: 0, message: Seq::empty(), status: Status::ToDo },
        };
        let ghost gid: Option<int> = match w {
            Option::Some(ts) => Option::Some(ts[k].id),
            Option::None => Option::None,
        };
        let ghost gmsg: Option<Seq<char>> = match w {
            Option::Some(ts) => Option::Some(ts[k].message),
            Option::None => Option::None,
        };
        let ghost gstat: Option<Seq<char>> = match w {
            Option::Some(ts) => Option::Some(status_str(ts[k].status)),
            Option::None => Option::None,
        };
        let ghost tail: Seq<char> = match w {
            Option::Some(ts) => if k == ts.len() - 1 {
                "\n  ]\n}"@
            } else {
                ",\n    "@ + (rest_tasks(ts, k + 1) + "\n  ]\n}"@)
            },
            Option::None => Seq::empty(),
        };
        let ghost r1 = dec_u(tk.id) + (",\n      \"message\": \""@ + (esc(tk.message) + (
        "\",\n      \"status\": \""@ + (status_str(tk.status) + ("\"\n    }"@ + tail)))));
        proof {
            if let Option::Some(ts) = w {
                lemma_status_names();
                reveal_strlit(",\n      \"message\": \"");
                reveal_strlit("\",\n      \"status\": \"");
                reveal_strlit("\"\n    }");
                if k < ts.len() - 1 {
                    assert(rest_tasks(ts, k) == ser_task(tk) + ",\n    "@ + rest_tasks(ts, k + 1));
                }
                assert(s@.subrange(i as int, len as int) =~= "{\n      \"id\": "@ + r1);
                lemma_peel(s@, i as int, "{\n      \"id\": "@, r1);
            }
        }
        i = match expect_lit(s, i, "{\n      \"id\": ") {
            None => {
                return None;
            },
            Some(j) => j,
        };
        proof {
            if let Option::Some(ts) = w {
                lemma_peel(s@, i as int, dec_u(tk.id), ",\n      \"message\": \""@ + (esc(
                    tk.message,
                ) + ("\",\n      \"status\": \""@ + (status_str(tk.status) + ("\"\n    }"@
                    + tail)))));
                reveal_strlit(",\n      \"message\": \"");
                assert(s@[i + dec_u(tk.id).len()] == s@.subrange(
                    i + dec_u(tk.id).len(),
                    len as int,
                )[0]);
                assert(s@[i + dec_u(tk.id).len()] == ',');
            }
        }
        let id: i32 = match read_digits(s, i, Ghost(gid)) {
            None => {
                return None;
            },
            Some(p) => {
                i = p.1;
                p.0
            },
        };
        proof {
            if let Option::Some(ts) = w {
                lemma_peel(s@, i as int, ",\n      \"message\": \""@, esc(tk.message) + (
                "\",\n      \"status\": \""@ + (status_str(tk.status) + ("\"\n    }"@
                    + tail))));
            }
        }
        i = match expect_lit(s, i, ",\n      \"message\": \"") {
            None => {
                return None;
            },
            Some(j) => j,
        };
        proof {
            if let Option::Some(ts) = w {
                lemma_peel(s@, i as int, esc(tk.message), "\",\n      \"status\": \""@ + (
                status_str(tk.status) + ("\"\n    }"@ + tail)));
                reveal_strlit("\",\n      \"status\": \"");
                assert(s@[i + esc(tk.message).len()] == s@.subrange(
                    i + esc(tk.message).len(),
                    len as int,
                )[0]);
                assert(s@[i + esc(tk.message).len()] == '\"');
            }
        }
        let message: String = match read_string(s, i, Ghost(gmsg)) {
            None => {
                return None;
            },
            Some(p) => {
                i = p.1;
                p.0
            },
        };
        proof {
            if let Option::Some(ts) = w {
                lemma_peel(s@, i as int, "\",\n      \"status\": \""@, status_str(tk.status) + (
                "\"\n    }"@ + tail));
            }
        }
        i = match expect_lit(s, i, "\",\n      \"status\": \"") {
            None => {
                return None;
            },
            Some(j) => j,
        };
        proof {
            if let Option::Some(ts) = w {
                lemma_status_names();
                lemma_peel(s@, i as int, status_str(tk.status), "\"\n    }"@ + tail);
                reveal_strlit("\"\n    }");
                assert(s@[i + status_str(tk.status).len()] == s@.subrange(
                    i + status_str(tk.status).len(),
                    len as int,
                )[0]);
                assert(s@[i + status_str(tk.status).len()] == '\"');
            }
        }
        let st: String = match read_string(s, i, Ghost(gstat)) {
            None => {
                return None;
            },
            Some(p) => {
                i = p.1;
                p.0
            },
        };
        let status: Status = if str_is(&st, "Done") {
            Status::Done
        } else if str_is(&st, "InProgress") {
            Status::InProgress
        } else if str_is(&st, "ToDo") {
            Status::ToDo
        } else {
            proof {
                if let Option::Some(ts) = w {
                    lemma_status_names();
                    assert(false);
                }
            }
            return None;
        };
        proof {
            if let Option::Some(ts) = w {
                lemma_status_names();
                assert(status == tk.status);
                lemma_peel(s@, i as int, "\"\n    }"@, tail);
            }
        }
        i = match expect_lit(s, i, "\"\n    }") {
            None => {
                return None;
            },
            Some(j) => j,
        };
        tasks.push(Task { id, message, status });
        proof {
            if let Option::Some(ts) = w {
                assert(Task { id, message, status }@ == tk);
                assert(tasks@.map_values(|t: Task| t@) =~= ts.take(k + 1));
            }
        }
        match expect_lit(s, i, ",\n    ") {
            Some(j) => {
                i = j;
                proof {
                    if let Option::Some(ts) = w {
                        if k == ts.len() - 1 {
                            reveal_strlit(",\n    ");
                            reveal_strlit("\n  ]\n}");
                            assert(s@.subrange(i - (",\n    "@).len(), len as int)[0] == '\n');
                            assert(s@.subrange(
                                j - (",\n    "@).len(),
                                j as int,
                            )[0] == ',');
                            assert(false);
                        }
                        lemma_peel(
                            s@,
                            i as int - (",\n    "@).len(),
                            ",\n    "@,
                            rest_tasks(ts, k + 1) + "\n  ]\n}"@,
                        );
                        k = k + 1;
                    }
                }
            },
            None => {
                proof {
                    if let Option::Some(ts) = w {
                        if k < ts.len() - 1 {
                            assert(s@.subrange(i as int, len as int) == ",\n    "@ + (rest_tasks(
                                ts,
                                k + 1,
                            ) + "\n  ]\n}"@));
                            lemma_peel(s@, i as int, ",\n    "@, rest_tasks(ts, k + 1)
                                + "\n  ]\n}"@);
                            assert(false);
                        }
                        assert(s@.subrange(i as int, len as int) =~= "\n  ]\n}"@
                            + Seq::<char>::empty());
                        lemma_peel(s@, i as int, "\n  ]\n}"@, Seq::<char>::empty());
                    }
                }
                i = match expect_lit(s, i, "\n  ]\n}") {
                    None => {
                        return None;
                    },
                    Some(j) => j,
                };
                if i != len {
                    return None;
                }
                let h = TaskHolder { all_tasks: tasks };
                proof {
                    if let Option::Some(ts) = w {
                        assert(ts.take(k + 1) =~= ts);
                        assert(h@ == ts.take(k + 1));
                    }
                }
                return Some(h);
            },
        }
    }
}

} // verus!
