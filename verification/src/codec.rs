use vstd::prelude::*;

verus! {

use crate::task::{Status, Task, TaskV};

// ---------------------------------------------------------------------------
// Decimal numbers
// ---------------------------------------------------------------------------

/// The character standing for one decimal digit.
pub open spec fn digit_char(d: int) -> char {
    if d == 0 {
        '0'
    } else if d == 1 {
        '1'
    } else if d == 2 {
        '2'
    } else if d == 3 {
        '3'
    } else if d == 4 {
        '4'
    } else if d == 5 {
        '5'
    } else if d == 6 {
        '6'
    } else if d == 7 {
        '7'
    } else if d == 8 {
        '8'
    } else {
        '9'
    }
}

/// The value of a digit character; 10 for anything that is no digit.
pub open spec fn char_digit(c: char) -> int {
    if c == '0' {
        0
    } else if c == '1' {
        1
    } else if c == '2' {
        2
    } else if c == '3' {
        3
    } else if c == '4' {
        4
    } else if c == '5' {
        5
    } else if c == '6' {
        6
    } else if c == '7' {
        7
    } else if c == '8' {
        8
    } else if c == '9' {
        9
    } else {
        10
    }
}

pub open spec fn is_digit(c: char) -> bool {
    char_digit(c) < 10
}

/// Decimal digits of `n`, most significant first, without leading zeros.
pub open spec fn dec(n: nat) -> Seq<char>
    decreases n,
{
    if n < 10 {
        seq![digit_char(n as int)]
    } else {
        dec(n / 10).push(digit_char((n % 10) as int))
    }
}

/// The number a digit sequence denotes when read as decimal.
pub open spec fn dec_val(s: Seq<char>) -> int
    decreases s.len(),
{
    if s.len() == 0 {
        0
    } else {
        dec_val(s.drop_last()) * 10 + char_digit(s.last())
    }
}

proof fn lemma_dec_len(n: nat)
    ensures
        dec(n).len() >= 1,
        forall|j: int| 0 <= j < dec(n).len() ==> is_digit(#[trigger] dec(n)[j]),
    decreases n,
{
    if n >= 10 {
        lemma_dec_len(n / 10);
    }
}

proof fn lemma_dec_val_of_dec(n: nat)
    ensures
        dec_val(dec(n)) == n,
    decreases n,
{
    assert(dec(n).len() >= 1) by {
        lemma_dec_len(n);
    }
    assert(dec_val(dec(n)) == dec_val(dec(n).drop_last()) * 10 + char_digit(dec(n).last()));
    if n < 10 {
        assert(dec(n).drop_last() =~= Seq::<char>::empty());
        assert(dec_val(Seq::<char>::empty()) == 0);
        assert(dec(n).last() == digit_char(n as int));
        assert(char_digit(digit_char(n as int)) == n);
    } else {
        lemma_dec_val_of_dec(n / 10);
        assert(dec(n).drop_last() =~= dec(n / 10));
        assert(dec(n).last() == digit_char((n % 10) as int));
        assert(char_digit(digit_char((n % 10) as int)) == n % 10);
        assert(n / 10 * 10 + n % 10 == n) by (nonlinear_arith);
    }
}

proof fn lemma_dec_val_nonneg(s: Seq<char>)
    ensures
        dec_val(s) >= 0,
    decreases s.len(),
{
    if s.len() > 0 {
        lemma_dec_val_nonneg(s.drop_last());
    }
}

/// Reading a prefix of a digit sequence never gives a larger number.
proof fn lemma_dec_val_prefix(s: Seq<char>, k: int)
    requires
        0 <= k <= s.len(),
    ensures
        dec_val(s.take(k)) <= dec_val(s),
    decreases s.len() - k,
{
    if k < s.len() {
        lemma_dec_val_prefix(s, k + 1);
        assert(s.take(k + 1).drop_last() =~= s.take(k));
        lemma_dec_val_nonneg(s.take(k));
        assert(dec_val(s.take(k + 1)) == dec_val(s.take(k)) * 10 + char_digit(s[k]));
    } else {
        assert(s.take(k) =~= s);
    }
}

/// How many leading characters of `s` are digits.
pub open spec fn digit_run(s: Seq<char>) -> int
    decreases s.len(),
{
    if s.len() > 0 && is_digit(s[0]) {
        1 + digit_run(s.skip(1))
    } else {
        0
    }
}

proof fn lemma_digit_run_bounds(s: Seq<char>)
    ensures
        0 <= digit_run(s) <= s.len(),
    decreases s.len(),
{
    if s.len() > 0 && is_digit(s[0]) {
        lemma_digit_run_bounds(s.skip(1));
    }
}

/// A run of digits followed by a non-digit (or the end) is exactly the run.
proof fn lemma_digit_run_of(d: Seq<char>, t: Seq<char>)
    requires
        forall|j: int| 0 <= j < d.len() ==> is_digit(#[trigger] d[j]),
        t.len() == 0 || !is_digit(t[0]),
    ensures
        digit_run(d + t) == d.len(),
    decreases d.len(),
{
    if d.len() == 0 {
        assert(d + t =~= t);
    } else {
        lemma_digit_run_of(d.skip(1), t);
        assert((d + t).skip(1) =~= d.skip(1) + t);
    }
}

/// Parse a decimal number: the longest leading digit run, read as a value.
/// Fails when there is no digit, or the value does not fit in `u64`.
pub open spec fn p_u64(s: Seq<char>) -> Option<(u64, Seq<char>)> {
    let k = digit_run(s);
    if k == 0 {
        None
    } else if dec_val(s.take(k)) > u64::MAX {
        None
    } else {
        Some((dec_val(s.take(k)) as u64, s.skip(k)))
    }
}

/// Parsing undoes printing: the digits of `n` followed by anything that does
/// not begin with a digit give back `n`.
pub proof fn lemma_p_u64_dec(n: u64, t: Seq<char>)
    requires
        t.len() == 0 || !is_digit(t[0]),
    ensures
        p_u64(dec(n as nat) + t) == Some((n, t)),
{
    let d = dec(n as nat);
    lemma_dec_len(n as nat);
    lemma_digit_run_of(d, t);
    assert((d + t).take(d.len() as int) =~= d);
    lemma_dec_val_of_dec(n as nat);
    assert((d + t).skip(d.len() as int) =~= t);
}

// ---------------------------------------------------------------------------
// Strings with escaping
// ---------------------------------------------------------------------------

/// A character as it stands inside an encoded string: backslash and double
/// quote are preceded by a backslash, everything else is itself.
pub open spec fn escape_char(c: char) -> Seq<char> {
    if c == '\\' || c == '"' {
        seq!['\\', c]
    } else {
        seq![c]
    }
}

/// A whole string escaped, character by character.
pub open spec fn escape_seq(s: Seq<char>) -> Seq<char>
    decreases s.len(),
{
    if s.len() == 0 {
        Seq::empty()
    } else {
        escape_char(s[0]) + escape_seq(s.skip(1))
    }
}

proof fn lemma_escape_push(s: Seq<char>, c: char)
    ensures
        escape_seq(s.push(c)) == escape_seq(s) + escape_char(c),
    decreases s.len(),
{
    if s.len() == 0 {
        assert(s.push(c).skip(1) =~= Seq::<char>::empty());
        assert(s.push(c)[0] == c);
        assert(escape_seq(s.push(c)) == escape_char(c) + escape_seq(Seq::<char>::empty()));
        assert(escape_char(c) + Seq::<char>::empty() =~= escape_char(c));
        assert(escape_seq(s) + escape_char(c) =~= escape_char(c));
    } else {
        lemma_escape_push(s.skip(1), c);
        assert(s.push(c).skip(1) =~= s.skip(1).push(c));
        assert(escape_char(s[0]) + (escape_seq(s.skip(1)) + escape_char(c)) =~= (escape_char(
            s[0],
        ) + escape_seq(s.skip(1))) + escape_char(c));
    }
}

/// Parse an escaped string up to and over its closing double quote.
pub open spec fn p_str(s: Seq<char>) -> Option<(Seq<char>, Seq<char>)>
    decreases s.len(),
{
    if s.len() == 0 {
        None
    } else if s[0] == '"' {
        Some((Seq::empty(), s.skip(1)))
    } else if s[0] == '\\' {
        if s.len() >= 2 && (s[1] == '\\' || s[1] == '"') {
            match p_str(s.skip(2)) {
                Some((r, rest)) => Some((seq![s[1]] + r, rest)),
                None => None,
            }
        } else {
            None
        }
    } else {
        match p_str(s.skip(1)) {
            Some((r, rest)) => Some((seq![s[0]] + r, rest)),
            None => None,
        }
    }
}

/// Parsing undoes escaping: the escaped text, its closing quote, and any
/// tail give back the original text and the tail.
pub proof fn lemma_p_str_escape(d: Seq<char>, t: Seq<char>)
    ensures
        p_str(escape_seq(d) + seq!['"'] + t) == Some((d, t)),
    decreases d.len(),
{
    let s = escape_seq(d) + seq!['"'] + t;
    if d.len() == 0 {
        assert(escape_seq(d) =~= Seq::<char>::empty());
        assert(s[0] == '"');
        assert(s.skip(1) =~= t);
        assert(d =~= Seq::<char>::empty());
    } else {
        lemma_p_str_escape(d.skip(1), t);
        let c = d[0];
        if c == '\\' || c == '"' {
            assert(s[0] == '\\');
            assert(s[1] == c);
            assert(s.skip(2) =~= escape_seq(d.skip(1)) + seq!['"'] + t);
            assert(seq![c] + d.skip(1) =~= d);
        } else {
            assert(s[0] == c);
            assert(s.skip(1) =~= escape_seq(d.skip(1)) + seq!['"'] + t);
            assert(seq![c] + d.skip(1) =~= d);
        }
    }
}

// ---------------------------------------------------------------------------
// The record grammar
// ---------------------------------------------------------------------------

/// Consume an exact literal prefix.
pub open spec fn p_lit(s: Seq<char>, lit: Seq<char>) -> Option<Seq<char>> {
    if lit.len() <= s.len() && s.take(lit.len() as int) == lit {
        Some(s.skip(lit.len() as int))
    } else {
        None
    }
}

proof fn lemma_p_lit(lit: Seq<char>, t: Seq<char>)
    ensures
        p_lit(lit + t, lit) == Some(t),
{
    assert((lit + t).take(lit.len() as int) =~= lit);
    assert((lit + t).skip(lit.len() as int) =~= t);
}

pub open spec fn lit_id() -> Seq<char> {
    "{\"id\":"@
}

pub open spec fn lit_desc() -> Seq<char> {
    ",\"description\":\""@
}

pub open spec fn lit_status() -> Seq<char> {
    ",\"status\":\""@
}

pub open spec fn lit_created() -> Seq<char> {
    ",\"created_at\":"@
}

pub open spec fn lit_updated() -> Seq<char> {
    ",\"updated_at\":"@
}

/// The written name of a status variant, with the quote that closes it.
pub open spec fn status_q(st: Status) -> Seq<char> {
    match st {
        Status::Pending => "Pending\""@,
        Status::InProgress => "InProgress\""@,
        Status::Completed => "Completed\""@,
    }
}

/// One encoded task record.
pub open spec fn enc_task(t: TaskV) -> Seq<char> {
    lit_id() + dec(t.id as nat) + lit_desc() + escape_seq(t.description) + seq!['"'] + lit_status()
        + status_q(t.status) + lit_created() + dec(t.created_at as nat) + lit_updated() + dec(
        t.updated_at as nat,
    ) + seq!['}']
}

/// Every encoded task after the first, each preceded by a comma.
pub open spec fn enc_tasks_rest(ts: Seq<TaskV>) -> Seq<char>
    decreases ts.len(),
{
    if ts.len() == 0 {
        Seq::empty()
    } else {
        seq![','] + enc_task(ts[0]) + enc_tasks_rest(ts.skip(1))
    }
}

/// The whole store encoded: the task records, in order, between brackets.
pub open spec fn encode_spec(ts: Seq<TaskV>) -> Seq<char> {
    if ts.len() == 0 {
        seq!['[', ']']
    } else {
        seq!['['] + enc_task(ts[0]) + enc_tasks_rest(ts.skip(1)) + seq![']']
    }
}

pub open spec fn p_status(s: Seq<char>) -> Option<(Status, Seq<char>)> {
    match p_lit(s, status_q(Status::Pending)) {
        Some(r) => Some((Status::Pending, r)),
        None => match p_lit(s, status_q(Status::InProgress)) {
            Some(r) => Some((Status::InProgress, r)),
            None => match p_lit(s, status_q(Status::Completed)) {
                Some(r) => Some((Status::Completed, r)),
                None => None,
            },
        },
    }
}

proof fn lemma_p_status(st: Status, t: Seq<char>)
    ensures
        p_status(status_q(st) + t) == Some((st, t)),
{
    reveal_strlit("Pending\"");
    reveal_strlit("InProgress\"");
    reveal_strlit("Completed\"");
    lemma_p_lit(status_q(st), t);
    let s = status_q(st) + t;
    match st {
        Status::Pending => {
        },
        Status::InProgress => {
            assert(s[0] == 'I');
            assert(p_lit(s, status_q(Status::Pending)) is None);
        },
        Status::Completed => {
            assert(s[0] == 'C');
            assert(p_lit(s, status_q(Status::Pending)) is None);
            assert(p_lit(s, status_q(Status::InProgress)) is None);
        },
    }
}

/// Parse one task record.
#[verifier::opaque]
pub open spec fn p_task(s: Seq<char>) -> Option<(TaskV, Seq<char>)> {
    match p_lit(s, lit_id()) {
        None => None,
        Some(s1) => match p_u64(s1) {
            None => None,
            Some((id, s2)) => match p_lit(s2, lit_desc()) {
                None => None,
                Some(s3) => match p_str(s3) {
                    None => None,
                    Some((d, s4)) => match p_lit(s4, lit_status()) {
                        None => None,
                        Some(s5) => match p_status(s5) {
                            None => None,
                            Some((st, s6)) => match p_lit(s6, lit_created()) {
                                None => None,
                                Some(s7) => match p_u64(s7) {
                                    None => None,
                                    Some((ca, s8)) => match p_lit(s8, lit_updated()) {
                                        None => None,
                                        Some(s9) => match p_u64(s9) {
                                            None => None,
                                            Some((ua, s10)) => match p_lit(s10, seq!['}']) {
                                                None => None,
                                                Some(s11) => Some(
                                                    (
                                                        TaskV {
                                                            id: id,
                                                            description: d,
                                                            status: st,
                                                            created_at: ca,
                                                            updated_at: ua,
                                                        },
                                                        s11,
                                                    ),
                                                ),
                                            },
                                        },
                                    },
                                },
                            },
                        },
                    },
                },
            },
        },
    }
}

proof fn lemma_p_str_consumes(s: Seq<char>)
    ensures
        p_str(s) is Some ==> (p_str(s)->Some_0).1.len() < s.len(),
    decreases s.len(),
{
    if s.len() > 0 && s[0] != '"' {
        if s[0] == '\\' {
            if s.len() >= 2 && (s[1] == '\\' || s[1] == '"') {
                lemma_p_str_consumes(s.skip(2));
            }
        } else {
            lemma_p_str_consumes(s.skip(1));
        }
    }
}

proof fn lemma_p_task_consumes(s: Seq<char>)
    ensures
        p_task(s) is Some ==> (p_task(s)->Some_0).1.len() < s.len(),
{
    reveal(p_task);
    if p_task(s) is Some {
        let s1 = p_lit(s, lit_id())->Some_0;
        let s2 = (p_u64(s1)->Some_0).1;
        let s3 = p_lit(s2, lit_desc())->Some_0;
        lemma_p_str_consumes(s3);
        let s4 = (p_str(s3)->Some_0).1;
        let s5 = p_lit(s4, lit_status())->Some_0;
        let s6 = (p_status(s5)->Some_0).1;
        let s7 = p_lit(s6, lit_created())->Some_0;
        let s8 = (p_u64(s7)->Some_0).1;
        let s9 = p_lit(s8, lit_updated())->Some_0;
        let s10 = (p_u64(s9)->Some_0).1;
        lemma_digit_run_bounds(s1);
        lemma_digit_run_bounds(s7);
        lemma_digit_run_bounds(s9);
        assert(s1.len() <= s.len());
        assert(s2.len() < s1.len());
        assert(s4.len() < s3.len());
        assert(s8.len() < s7.len());
        assert(s10.len() < s9.len());
    }
}

/// Parsing one record undoes encoding it, whatever follows.
#[verifier::rlimit(80)]
proof fn lemma_p_task_enc(t: TaskV, tail: Seq<char>)
    ensures
        p_task(enc_task(t) + tail) == Some((t, tail)),
{
    reveal(p_task);
    reveal_strlit(",\"description\":\"");
    reveal_strlit(",\"updated_at\":");
    let t11 = seq!['}'] + tail;
    let t10 = dec(t.updated_at as nat) + t11;
    let t9 = lit_updated() + t10;
    let t8 = dec(t.created_at as nat) + t9;
    let t7 = lit_created() + t8;
    let t6 = status_q(t.status) + t7;
    let t5 = lit_status() + t6;
    let t4 = seq!['"'] + t5;
    let t3 = escape_seq(t.description) + t4;
    let t2 = lit_desc() + t3;
    let t1 = dec(t.id as nat) + t2;
    let p1 = lit_id();
    let p2 = p1 + dec(t.id as nat);
    let p3 = p2 + lit_desc();
    let p4 = p3 + escape_seq(t.description);
    let p5 = p4 + seq!['"'];
    let p6 = p5 + lit_status();
    let p7 = p6 + status_q(t.status);
    let p8 = p7 + lit_created();
    let p9 = p8 + dec(t.created_at as nat);
    let p10 = p9 + lit_updated();
    let p11 = p10 + dec(t.updated_at as nat);
    let s = enc_task(t) + tail;
    assert(enc_task(t) == p11 + seq!['}']);
    assert(s =~= p11 + t11);
    assert(p11 + t11 =~= p10 + t10);
    assert(p10 + t10 =~= p9 + t9);
    assert(p9 + t9 =~= p8 + t8);
    assert(p8 + t8 =~= p7 + t7);
    assert(p7 + t7 =~= p6 + t6);
    assert(p6 + t6 =~= p5 + t5);
    assert(p5 + t5 =~= p4 + t4);
    assert(p4 + t4 =~= p3 + t3);
    assert(p3 + t3 =~= p2 + t2);
    assert(p2 + t2 =~= p1 + t1);
    assert(s == lit_id() + t1);
    lemma_p_lit(lit_id(), t1);
    assert(t2[0] == ',');
    assert(!is_digit(','));
    lemma_p_u64_dec(t.id, t2);
    lemma_p_lit(lit_desc(), t3);
    assert(t3 =~= escape_seq(t.description) + seq!['"'] + t5);
    lemma_p_str_escape(t.description, t5);
    lemma_p_lit(lit_status(), t6);
    lemma_p_status(t.status, t7);
    lemma_p_lit(lit_created(), t8);
    assert(t9[0] == ',');
    lemma_p_u64_dec(t.created_at, t9);
    lemma_p_lit(lit_updated(), t10);
    assert(t11[0] == '}');
    assert(!is_digit('}'));
    lemma_p_u64_dec(t.updated_at, t11);
    lemma_p_lit(seq!['}'], tail);
    assert(p_task(s)->Some_0.0 =~= t);
}

/// Parse the remaining records: either the closing bracket, or a comma and
/// one more record. `fuel` only bounds the recursion; any amount at least
/// the text's length gives the parse its meaning.
pub open spec fn p_tasks_rest(s: Seq<char>, fuel: nat) -> Option<(Seq<TaskV>, Seq<char>)>
    decreases fuel,
{
    if s.len() > 0 && s[0] == ']' {
        Some((Seq::empty(), s.skip(1)))
    } else if s.len() > 0 && s[0] == ',' && fuel > 0 {
        match p_task(s.skip(1)) {
            None => None,
            Some((t, r)) => match p_tasks_rest(r, (fuel - 1) as nat) {
                None => None,
                Some((ts, r2)) => Some((seq![t] + ts, r2)),
            },
        }
    } else {
        None
    }
}

proof fn lemma_p_tasks_rest_fuel(s: Seq<char>, f1: nat, f2: nat)
    requires
        f1 >= s.len(),
        f2 >= s.len(),
    ensures
        p_tasks_rest(s, f1) == p_tasks_rest(s, f2),
    decreases s.len(),
{
    if s.len() > 0 && s[0] != ']' && s[0] == ',' {
        lemma_p_task_consumes(s.skip(1));
        if p_task(s.skip(1)) is Some {
            let r = (p_task(s.skip(1))->Some_0).1;
            lemma_p_tasks_rest_fuel(r, (f1 - 1) as nat, (f2 - 1) as nat);
        }
    }
}

/// Parse a whole store: brackets around the records, nothing after them.
#[verifier::opaque]
pub open spec fn p_top(s: Seq<char>) -> Option<Seq<TaskV>> {
    match p_lit(s, seq!['[']) {
        None => None,
        Some(s1) => if s1.len() > 0 && s1[0] == ']' {
            if s1.len() == 1 {
                Some(Seq::empty())
            } else {
                None
            }
        } else {
            match p_task(s1) {
                None => None,
                Some((t, r)) => match p_tasks_rest(r, r.len() as nat) {
                    None => None,
                    Some((ts, r2)) => if r2.len() == 0 {
                        Some(seq![t] + ts)
                    } else {
                        None
                    },
                },
            }
        },
    }
}

proof fn lemma_enc_rest_len(ts: Seq<TaskV>)
    ensures
        enc_tasks_rest(ts).len() >= ts.len(),
    decreases ts.len(),
{
    if ts.len() > 0 {
        lemma_enc_rest_len(ts.skip(1));
    }
}

proof fn lemma_p_tasks_rest_enc(ts: Seq<TaskV>, fuel: nat)
    requires
        fuel >= ts.len(),
    ensures
        p_tasks_rest(enc_tasks_rest(ts) + seq![']'], fuel) == Some((ts, Seq::<char>::empty())),
    decreases ts.len(),
{
    let s = enc_tasks_rest(ts) + seq![']'];
    if ts.len() == 0 {
        assert(s =~= seq![']']);
        assert(s.skip(1) =~= Seq::<char>::empty());
        assert(ts =~= Seq::<TaskV>::empty());
    } else {
        let tail = enc_tasks_rest(ts.skip(1)) + seq![']'];
        assert(s =~= seq![','] + (enc_task(ts[0]) + tail));
        assert(s[0] == ',');
        assert(s.skip(1) =~= enc_task(ts[0]) + tail);
        lemma_p_task_enc(ts[0], tail);
        lemma_p_tasks_rest_enc(ts.skip(1), (fuel - 1) as nat);
        assert(seq![ts[0]] + ts.skip(1) =~= ts);
    }
}

/// The first character of an encoded record is the opening brace.
proof fn lemma_enc_task_first(t: TaskV)
    ensures
        enc_task(t).len() > 0,
        enc_task(t)[0] == '{',
{
    reveal_strlit("{\"id\":");
    assert(enc_task(t)[0] == lit_id()[0]);
}

// ---------------------------------------------------------------------------
// Encoder
// ---------------------------------------------------------------------------

/// The models of the tasks a vector holds, in order.
pub open spec fn views_of(ts: Seq<Task>) -> Seq<TaskV> {
    ts.map_values(|t: Task| t@)
}

/// Relies on `String::push` of std: it appends exactly the given character.
#[verifier::external_body]
fn push_char(s: &mut String, c: char)
    ensures
        final(s)@ == old(s)@.push(c),
{
    s.push(c)
}

fn digit_char_exec(d: u64) -> (c: char)
    requires
        d < 10,
    ensures
        c == digit_char(d as int),
{
    if d == 0 {
        '0'
    } else if d == 1 {
        '1'
    } else if d == 2 {
        '2'
    } else if d == 3 {
        '3'
    } else if d == 4 {
        '4'
    } else if d == 5 {
        '5'
    } else if d == 6 {
        '6'
    } else if d == 7 {
        '7'
    } else if d == 8 {
        '8'
    } else {
        '9'
    }
}

/// Print a number in decimal.
fn encode_u64(n: u64) -> (r: String)
    ensures
        r@ == dec(n as nat),
    decreases n,
{
    if n < 10 {
        let mut s = String::new();
        push_char(&mut s, digit_char_exec(n));
        proof {
            assert(s@ =~= seq![digit_char(n as int)]);
        }
        s
    } else {
        assert(n / 10 < n) by (nonlinear_arith)
            requires
                n >= 10,
        ;
        let mut s = encode_u64(n / 10);
        push_char(&mut s, digit_char_exec(n % 10));
        s
    }
}

/// Append the text of `s`, escaped character by character.
fn append_escaped(out: &mut String, s: &str)
    ensures
        final(out)@ == old(out)@ + escape_seq(s@),
{
    let n = s.unicode_len();
    let mut i: usize = 0;
    proof {
        assert(escape_seq(s@.take(0)) =~= Seq::<char>::empty());
        assert(old(out)@ + Seq::<char>::empty() =~= old(out)@);
    }
    while i < n
        invariant
            i <= n,
            n == s@.len(),
            out@ == old(out)@ + escape_seq(s@.take(i as int)),
        decreases n - i,
    {
        let ghost pre = out@;
        let c = s.get_char(i);
        if c == '\\' || c == '"' {
            push_char(out, '\\');
            push_char(out, c);
            proof {
                assert(out@ =~= pre + escape_char(c));
            }
        } else {
            push_char(out, c);
            proof {
                assert(out@ =~= pre + escape_char(c));
            }
        }
        proof {
            lemma_escape_push(s@.take(i as int), c);
            assert(s@.take(i as int).push(c) =~= s@.take(i + 1));
            assert((old(out)@ + escape_seq(s@.take(i as int))) + escape_char(c) =~= old(out)@
                + escape_seq(s@.take(i + 1)));
        }
        i += 1;
    }
    proof {
        assert(s@.take(n as int) =~= s@);
    }
}

/// Encode one task record exactly as `enc_task` states it.
fn encode_task(t: &Task) -> (r: String)
    ensures
        r@ == enc_task(t@),
{
    let mut out = String::new();
    out.append("{\"id\":");
    proof {
        assert(out@ =~= lit_id());
    }
    let ids = encode_u64(t.id);
    out.append(ids.as_str());
    out.append(",\"description\":\"");
    append_escaped(&mut out, t.description.as_str());
    push_char(&mut out, '"');
    let ghost mid = out@;
    out.append(",\"status\":\"");
    match t.status {
        Status::Pending => out.append("Pending\""),
        Status::InProgress => out.append("InProgress\""),
        Status::Completed => out.append("Completed\""),
    }
    out.append(",\"created_at\":");
    let cas = encode_u64(t.created_at);
    out.append(cas.as_str());
    out.append(",\"updated_at\":");
    let uas = encode_u64(t.updated_at);
    out.append(uas.as_str());
    push_char(&mut out, '}');
    proof {
        assert(mid =~= (lit_id() + dec(t@.id as nat) + lit_desc() + escape_seq(t@.description))
            + seq!['"']);
        assert(out@ =~= enc_task(t@));
    }
    out
}

proof fn lemma_enc_rest_push(ts: Seq<TaskV>, t: TaskV)
    ensures
        enc_tasks_rest(ts.push(t)) == enc_tasks_rest(ts) + (seq![','] + enc_task(t)),
    decreases ts.len(),
{
    if ts.len() == 0 {
        assert(ts.push(t).skip(1) =~= Seq::<TaskV>::empty());
        assert(ts.push(t)[0] == t);
        assert(enc_tasks_rest(ts.push(t)) == seq![','] + enc_task(t) + enc_tasks_rest(
            Seq::<TaskV>::empty(),
        ));
        assert(seq![','] + enc_task(t) + Seq::<char>::empty() =~= enc_tasks_rest(ts) + (seq![',']
            + enc_task(t)));
    } else {
        lemma_enc_rest_push(ts.skip(1), t);
        assert(ts.push(t).skip(1) =~= ts.skip(1).push(t));
        assert(ts.push(t)[0] == ts[0]);
        assert(seq![','] + enc_task(ts[0]) + (enc_tasks_rest(ts.skip(1)) + (seq![','] + enc_task(
            t,
        ))) =~= (seq![','] + enc_task(ts[0]) + enc_tasks_rest(ts.skip(1))) + (seq![','] + enc_task(
            t,
        )));
    }
}

/// Encode a whole task list: the persisted text of the store.
pub fn encode_tasks(tasks: &Vec<Task>) -> (r: String)
    ensures
        r@ == encode_spec(views_of(tasks@)),
{
    let ghost vs = views_of(tasks@);
    let mut out = String::new();
    push_char(&mut out, '[');
    if tasks.len() == 0 {
        push_char(&mut out, ']');
        proof {
            assert(out@ =~= seq!['[', ']']);
        }
        return out;
    }
    let rec = encode_task(&tasks[0]);
    out.append(rec.as_str());
    proof {
        assert(Seq::<char>::empty().push('[') =~= seq!['[']);
        assert(out@ =~= seq!['['] + enc_task(vs[0]) + enc_tasks_rest(vs.subrange(1, 1)));
        assert(enc_tasks_rest(vs.subrange(1, 1)) =~= Seq::<char>::empty()) by {
            assert(vs.subrange(1, 1) =~= Seq::<TaskV>::empty());
        }
    }
    let n = tasks.len();
    let mut i: usize = 1;
    while i < n
        invariant
            1 <= i <= n,
            n == tasks@.len(),
            vs == views_of(tasks@),
            out@ == seq!['['] + enc_task(vs[0]) + enc_tasks_rest(vs.subrange(1, i as int)),
        decreases n - i,
    {
        let ghost pre = out@;
        push_char(&mut out, ',');
        let rec_i = encode_task(&tasks[i]);
        out.append(rec_i.as_str());
        proof {
            assert(out@ =~= pre + (seq![','] + enc_task(vs[i as int])));
            lemma_enc_rest_push(vs.subrange(1, i as int), vs[i as int]);
            assert(vs.subrange(1, i as int).push(vs[i as int]) =~= vs.subrange(1, i + 1));
            assert(pre + (seq![','] + enc_task(vs[i as int])) =~= seq!['['] + enc_task(vs[0])
                + enc_tasks_rest(vs.subrange(1, i + 1)));
        }
        i += 1;
    }
    push_char(&mut out, ']');
    proof {
        assert(vs.subrange(1, n as int) =~= vs.skip(1));
        assert(out@ =~= encode_spec(vs));
    }
    out
}

// ---------------------------------------------------------------------------
// Parser
// ---------------------------------------------------------------------------

fn is_digit_exec(c: char) -> (r: bool)
    ensures
        r == is_digit(c),
{
    c == '0' || c == '1' || c == '2' || c == '3' || c == '4' || c == '5' || c == '6' || c == '7'
        || c == '8' || c == '9'
}

fn digit_val_exec(c: char) -> (d: u64)
    requires
        is_digit(c),
    ensures
        d == char_digit(c),
        d <= 9,
{
    if c == '0' {
        0
    } else if c == '1' {
        1
    } else if c == '2' {
        2
    } else if c == '3' {
        3
    } else if c == '4' {
        4
    } else if c == '5' {
        5
    } else if c == '6' {
        6
    } else if c == '7' {
        7
    } else if c == '8' {
        8
    } else {
        9
    }
}

/// Match an exact literal at position `i`.
fn expect_lit(s: &str, i: usize, lit: &str) -> (r: Option<usize>)
    requires
        i <= s@.len(),
    ensures
        match r {
            Some(j) => {
                &&& i <= j <= s@.len()
                &&& j == i + lit@.len()
                &&& p_lit(s@.skip(i as int), lit@) == Some(s@.skip(j as int))
            },
            None => p_lit(s@.skip(i as int), lit@) is None,
        },
{
    let n = s.unicode_len();
    let m = lit.unicode_len();
    if n - i < m {
        return None;
    }
    let mut k: usize = 0;
    while k < m
        invariant
            k <= m,
            i + m <= n,
            n == s@.len(),
            m == lit@.len(),
            forall|q: int| 0 <= q < k ==> s@[i + q] == lit@[q],
        decreases m - k,
    {
        if s.get_char(i + k) != lit.get_char(k) {
            proof {
                if p_lit(s@.skip(i as int), lit@) is Some {
                    assert(s@.skip(i as int).take(m as int)[k as int] == lit@[k as int]);
                    assert(s@.skip(i as int).take(m as int)[k as int] == s@[i + k]);
                }
            }
            return None;
        }
        k += 1;
    }
    proof {
        assert(s@.skip(i as int).take(m as int) =~= lit@);
        assert(s@.skip(i as int).skip(m as int) =~= s@.skip(i + m));
    }
    Some(i + m)
}

/// Match one exact character at position `i`.
fn expect_ch(s: &str, i: usize, c: char) -> (r: Option<usize>)
    requires
        i <= s@.len(),
    ensures
        match r {
            Some(j) => {
                &&& i < s@.len() && j == i + 1
                &&& p_lit(s@.skip(i as int), seq![c]) == Some(s@.skip(j as int))
            },
            None => p_lit(s@.skip(i as int), seq![c]) is None,
        },
{
    let n = s.unicode_len();
    if i < n && s.get_char(i) == c {
        proof {
            assert(s@.skip(i as int).take(1) =~= seq![c]);
            assert(s@.skip(i as int).skip(1) =~= s@.skip(i + 1));
        }
        Some(i + 1)
    } else {
        proof {
            if p_lit(s@.skip(i as int), seq![c]) is Some {
                assert(s@.skip(i as int).take(1)[0] == s@[i as int]);
            }
        }
        None
    }
}

/// Parse a decimal `u64` at position `i`.
fn parse_u64(s: &str, i: usize) -> (r: Option<(u64, usize)>)
    requires
        i <= s@.len(),
    ensures
        match r {
            Some(v) => {
                &&& i <= v.1 <= s@.len()
                &&& p_u64(s@.skip(i as int)) == Some((v.0, s@.skip(v.1 as int)))
            },
            None => p_u64(s@.skip(i as int)) is None,
        },
{
    let n = s.unicode_len();
    let ghost ss = s@.skip(i as int);
    let mut e = i;
    while e < n && is_digit_exec(s.get_char(e))
        invariant
            i <= e <= n,
            n == s@.len(),
            digit_run(ss) == e - i + digit_run(s@.skip(e as int)),
            forall|q: int| i <= q < e ==> is_digit(s@[q]),
        decreases n - e,
    {
        proof {
            assert(s@.skip(e as int).skip(1) =~= s@.skip(e + 1));
        }
        e += 1;
    }
    proof {
        if e < n {
            assert(!is_digit(s@[e as int]));
        }
        assert(digit_run(s@.skip(e as int)) == 0);
        assert(digit_run(ss) == e - i);
    }
    if e == i {
        return None;
    }
    let ghost k = e - i;
    let mut acc: u64 = 0;
    let mut cur = i;
    proof {
        assert(ss.take(0) =~= Seq::<char>::empty());
    }
    while cur < e
        invariant
            i <= cur <= e <= n,
            n == s@.len(),
            ss == s@.skip(i as int),
            k == e - i,
            digit_run(ss) == k,
            forall|q: int| i <= q < e ==> is_digit(s@[q]),
            acc == dec_val(ss.take(cur - i)),
        decreases e - cur,
    {
        let c = s.get_char(cur);
        let d = digit_val_exec(c);
        proof {
            assert(ss.take(cur - i + 1).drop_last() =~= ss.take(cur - i));
            assert(ss.take(cur - i + 1).last() == s@[cur as int]);
        }
        let next = match acc.checked_mul(10) {
            Some(x) => match x.checked_add(d) {
                Some(y) => y,
                None => {
                    proof {
                        lemma_overflow_means_none(ss, k, cur - i, acc * 10 + d);
                    }
                    return None;
                },
            },
            None => {
                proof {
                    lemma_dec_val_nonneg(ss.take(cur - i));
                    assert(dec_val(ss.take(cur - i + 1)) > u64::MAX);
                    lemma_overflow_means_none(ss, k, cur - i, dec_val(ss.take(cur - i + 1)));
                }
                return None;
            },
        };
        acc = next;
        cur += 1;
    }
    proof {
        assert(ss.take(k) == ss.take(e - i));
        assert(ss.skip(k) =~= s@.skip(e as int));
    }
    Some((acc, e))
}

/// When a digit prefix already exceeds `u64::MAX`, the whole run does.
proof fn lemma_overflow_means_none(ss: Seq<char>, k: int, m: int, v: int)
    requires
        0 <= m < k <= ss.len(),
        dec_val(ss.take(m + 1)) == v,
        v > u64::MAX,
        digit_run(ss) == k,
    ensures
        p_u64(ss) is None,
{
    lemma_dec_val_prefix(ss.take(k), m + 1);
    assert(ss.take(k).take(m + 1) =~= ss.take(m + 1));
}

/// Parse an escaped string at position `i`, through its closing quote.
fn parse_string(s: &str, i: usize) -> (r: Option<(String, usize)>)
    requires
        i <= s@.len(),
    ensures
        match r {
            Some(v) => {
                &&& i <= v.1 <= s@.len()
                &&& p_str(s@.skip(i as int)) == Some((v.0@, s@.skip(v.1 as int)))
            },
            None => p_str(s@.skip(i as int)) is None,
        },
{
    let n = s.unicode_len();
    let mut out = String::new();
    let mut cur = i;
    proof {
        if p_str(s@.skip(i as int)) is Some {
            let pr = p_str(s@.skip(i as int))->Some_0;
            assert(Seq::<char>::empty() + pr.0 =~= pr.0);
        }
    }
    loop
        invariant
            i <= cur <= n,
            n == s@.len(),
            p_str(s@.skip(i as int)) == (match p_str(s@.skip(cur as int)) {
                None => None::<(Seq<char>, Seq<char>)>,
                Some((r2, rest)) => Some((out@ + r2, rest)),
            }),
        decreases n - cur,
    {
        if cur >= n {
            return None;
        }
        let c = s.get_char(cur);
        if c == '"' {
            proof {
                assert(s@.skip(cur as int).skip(1) =~= s@.skip(cur + 1));
                assert(out@ + Seq::<char>::empty() =~= out@);
            }
            return Some((out, cur + 1));
        } else if c == '\\' {
            if cur + 1 < n {
                let c2 = s.get_char(cur + 1);
                if c2 == '\\' || c2 == '"' {
                    let ghost pre = out@;
                    push_char(&mut out, c2);
                    proof {
                        assert(s@.skip(cur as int)[1] == c2);
                        assert(s@.skip(cur as int).skip(2) =~= s@.skip(cur + 2));
                        if p_str(s@.skip(cur + 2)) is Some {
                            let pr = p_str(s@.skip(cur + 2))->Some_0;
                            assert(pre + (seq![c2] + pr.0) =~= out@ + pr.0);
                        }
                    }
                    cur += 2;
                } else {
                    proof {
                        assert(s@.skip(cur as int)[1] == c2);
                    }
                    return None;
                }
            } else {
                proof {
                    assert(s@.skip(cur as int).len() == n - cur);
                }
                return None;
            }
        } else {
            let ghost pre = out@;
            push_char(&mut out, c);
            proof {
                assert(s@.skip(cur as int).skip(1) =~= s@.skip(cur + 1));
                if p_str(s@.skip(cur + 1)) is Some {
                    let pr = p_str(s@.skip(cur + 1))->Some_0;
                    assert(pre + (seq![c] + pr.0) =~= out@ + pr.0);
                }
            }
            cur += 1;
        }
    }
}

/// Parse a status name and its closing quote at position `i`.
fn parse_status(s: &str, i: usize) -> (r: Option<(Status, usize)>)
    requires
        i <= s@.len(),
    ensures
        match r {
            Some(v) => {
                &&& i <= v.1 <= s@.len()
                &&& p_status(s@.skip(i as int)) == Some((v.0, s@.skip(v.1 as int)))
            },
            None => p_status(s@.skip(i as int)) is None,
        },
{
    match expect_lit(s, i, "Pending\"") {
        Some(j) => {
            return Some((Status::Pending, j));
        },
        None => {
        },
    }
    match expect_lit(s, i, "InProgress\"") {
        Some(j) => {
            return Some((Status::InProgress, j));
        },
        None => {
        },
    }
    match expect_lit(s, i, "Completed\"") {
        Some(j) => {
            return Some((Status::Completed, j));
        },
        None => {
        },
    }
    None
}

/// Parse one task record at position `i`.
fn parse_task(s: &str, i: usize) -> (r: Option<(Task, usize)>)
    requires
        i <= s@.len(),
    ensures
        match r {
            Some(v) => {
                &&& i <= v.1 <= s@.len()
                &&& p_task(s@.skip(i as int)) == Some((v.0@, s@.skip(v.1 as int)))
            },
            None => p_task(s@.skip(i as int)) is None,
        },
{
    proof {
        reveal(p_task);
    }
    let j1 = match expect_lit(s, i, "{\"id\":") {
        Some(j) => j,
        None => {
            return None;
        },
    };
    let (id, j2) = match parse_u64(s, j1) {
        Some(v) => v,
        None => {
            return None;
        },
    };
    let j3 = match expect_lit(s, j2, ",\"description\":\"") {
        Some(j) => j,
        None => {
            return None;
        },
    };
    let (desc, j4) = match parse_string(s, j3) {
        Some(v) => v,
        None => {
            return None;
        },
    };
    let j5 = match expect_lit(s, j4, ",\"status\":\"") {
        Some(j) => j,
        None => {
            return None;
        },
    };
    let (st, j6) = match parse_status(s, j5) {
        Some(v) => v,
        None => {
            return None;
        },
    };
    let j7 = match expect_lit(s, j6, ",\"created_at\":") {
        Some(j) => j,
        None => {
            return None;
        },
    };
    let (ca, j8) = match parse_u64(s, j7) {
        Some(v) => v,
        None => {
            return None;
        },
    };
    let j9 = match expect_lit(s, j8, ",\"updated_at\":") {
        Some(j) => j,
        None => {
            return None;
        },
    };
    let (ua, j10) = match parse_u64(s, j9) {
        Some(v) => v,
        None => {
            return None;
        },
    };
    let j11 = match expect_ch(s, j10, '}') {
        Some(j) => j,
        None => {
            return None;
        },
    };
    let t = Task { id, description: desc, status: st, created_at: ca, updated_at: ua };
    proof {
        assert((p_task(s@.skip(i as int))->Some_0).0 =~= t@);
    }
    Some((t, j11))
}

/// What remains to be parsed at position `cur`, with the fuel the text's
/// own length supplies.
spec fn rest_here(s: Seq<char>, cur: int) -> Option<(Seq<TaskV>, Seq<char>)> {
    p_tasks_rest(s.skip(cur), s.skip(cur).len() as nat)
}

/// Decode a whole store text. Anything that does not parse yields the
/// empty task list; a well-formed text yields exactly the tasks it encodes.
pub fn decode_tasks(s: &str) -> (r: Vec<Task>)
    ensures
        match p_top(s@) {
            Some(ts) => views_of(r@) == ts,
            None => r@.len() == 0,
        },
{
    proof {
        reveal(p_top);
        reveal(p_task);
    }
    let n = s.unicode_len();
    let empty: Vec<Task> = Vec::new();
    let j0 = match expect_ch(s, 0, '[') {
        Some(j) => j,
        None => {
            proof {
                assert(s@.skip(0) =~= s@);
                if p_lit(s@, seq!['[']) is Some {
                    assert(p_lit(s@.skip(0), seq!['[']) is Some);
                }
            }
            return empty;
        },
    };
    proof {
        assert(s@.skip(0) =~= s@);
    }
    if j0 < n {
        let c = s.get_char(j0);
        if c == ']' {
            if n == j0 + 1 {
                proof {
                    assert(views_of(empty@) =~= Seq::<TaskV>::empty());
                }
                return empty;
            } else {
                return empty;
            }
        }
    } else {
        proof {
            assert(s@.skip(j0 as int).len() == 0);
            assert(p_task(s@.skip(j0 as int)) is None);
        }
        return empty;
    }
    proof {
        assert(s@.skip(1)[0] == s@[1]);
        assert(s@.skip(1).len() > 0);
    }
    let (t0, j) = match parse_task(s, j0) {
        Some(v) => v,
        None => {
            return empty;
        },
    };
    let mut acc: Vec<Task> = Vec::new();
    acc.push(t0);
    let mut cur = j;
    proof {
        assert(views_of(acc@) =~= seq![t0@]);
        if rest_here(s@, j as int) is Some {
            let pr = rest_here(s@, j as int)->Some_0;
            assert(seq![t0@] + pr.0 =~= views_of(acc@) + pr.0);
        }
    }
    loop
        invariant
            j0 == 1,
            cur <= s@.len(),
            n == s@.len(),
            p_top(s@) == (match rest_here(s@, cur as int) {
                None => None::<Seq<TaskV>>,
                Some((ts2, r2)) => if r2.len() == 0 {
                    Some(views_of(acc@) + ts2)
                } else {
                    None::<Seq<TaskV>>
                },
            }),
        decreases n - cur,
    {
        if cur >= n {
            proof {
                assert(s@.skip(cur as int).len() == 0);
            }
            return Vec::new();
        }
        let c = s.get_char(cur);
        if c == ']' {
            proof {
                assert(s@.skip(cur as int)[0] == ']');
                assert(s@.skip(cur as int).skip(1) =~= s@.skip(cur + 1));
            }
            if cur + 1 == n {
                proof {
                    assert(s@.skip(cur + 1).len() == 0);
                    assert(views_of(acc@) + Seq::<TaskV>::empty() =~= views_of(acc@));
                }
                return acc;
            } else {
                proof {
                    assert(s@.skip(cur + 1).len() > 0);
                }
                return Vec::new();
            }
        } else if c == ',' {
            proof {
                assert(s@.skip(cur as int)[0] == ',');
                assert(s@.skip(cur as int).skip(1) =~= s@.skip(cur + 1));
                assert(s@.skip(cur as int).len() > 0);
            }
            let (t, j2) = match parse_task(s, cur + 1) {
                Some(v) => v,
                None => {
                    return Vec::new();
                },
            };
            let ghost pre_views = views_of(acc@);
            acc.push(t);
            proof {
                lemma_p_task_consumes(s@.skip(cur + 1));
                lemma_p_tasks_rest_fuel(
                    s@.skip(j2 as int),
                    (s@.skip(cur as int).len() - 1) as nat,
                    s@.skip(j2 as int).len() as nat,
                );
                assert(views_of(acc@) =~= pre_views.push(t@));
                if rest_here(s@, j2 as int) is Some {
                    let pr = rest_here(s@, j2 as int)->Some_0;
                    assert(pre_views + (seq![t@] + pr.0) =~= views_of(acc@) + pr.0);
                }
            }
            cur = j2;
        } else {
            proof {
                assert(s@.skip(cur as int)[0] == c);
            }
            return Vec::new();
        }
    }
}

/// Decoding undoes encoding, for every sequence of task records.
#[verifier::rlimit(80)]
pub proof fn lemma_round_trip(ts: Seq<TaskV>)
    ensures
        p_top(encode_spec(ts)) == Some(ts),
{
    reveal(p_top);
    let s = encode_spec(ts);
    if ts.len() == 0 {
        assert(s.take(1) =~= seq!['[']);
        let s1 = s.skip(1);
        assert(s1 =~= seq![']']);
        assert(ts =~= Seq::<TaskV>::empty());
    } else {
        let rest = enc_tasks_rest(ts.skip(1)) + seq![']'];
        let t1 = enc_task(ts[0]) + rest;
        assert(s =~= seq!['['] + t1);
        lemma_p_lit(seq!['['], t1);
        lemma_enc_task_first(ts[0]);
        assert(t1[0] == '{');
        lemma_p_task_enc(ts[0], rest);
        lemma_enc_rest_len(ts.skip(1));
        lemma_p_tasks_rest_enc(ts.skip(1), rest.len() as nat);
        assert(seq![ts[0]] + ts.skip(1) =~= ts);
    }
}

} // verus!
