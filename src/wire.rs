//! The text frame that carries a signaling message over a transport:
//! `{"type":…,"session_id":…,"sender_id":…,"payload":…}`, every value a
//! string, with `"` and `\` escaped by a backslash.

use vstd::prelude::*;
use vstd::string::*;
use crate::message::{MessageKind, MessageView, SignalError, SignalingMessage};

verus! {

/// The name of a message kind on the wire.
pub open spec fn kind_name(k: MessageKind) -> Seq<char> {
    match k {
        MessageKind::Offer => "offer"@,
        MessageKind::Answer => "answer"@,
        MessageKind::IceCandidate => "ice"@,
        MessageKind::Join => "join"@,
        MessageKind::Leave => "leave"@,
    }
}

/// One character inside a quoted value: a quote or a backslash takes a
/// backslash before it.
pub open spec fn escaped_char(c: char) -> Seq<char> {
    if c == '"' {
        "\\\""@
    } else if c == '\\' {
        "\\\\"@
    } else {
        seq![c]
    }
}

pub open spec fn escape(s: Seq<char>) -> Seq<char>
    decreases s.len(),
{
    if s.len() == 0 {
        Seq::empty()
    } else {
        escape(s.drop_last()) + escaped_char(s.last())
    }
}

pub open spec fn digit_char(d: nat) -> char {
    if d == 0 {
        '0'
    } else if d == 1 {
        '1'
    } else if d == 2 {
        '2'
    } else if d == 3 {
        '3'
    } else if d == 4 {
        '4'
    } else if d == 5 {
        '5'
    } else if d == 6 {
        '6'
    } else if d == 7 {
        '7'
    } else if d == 8 {
        '8'
    } else {
        '9'
    }
}

pub open spec fn digit(d: nat) -> Seq<char> {
    seq![digit_char(d)]
}

/// The decimal digits of `n`, without leading zeros.
pub open spec fn decimal(n: nat) -> Seq<char>
    decreases n,
{
    if n < 10 {
        digit(n)
    } else {
        decimal(n / 10) + digit(n % 10)
    }
}

/// A literal, then a quoted value closed by its quote, then the rest.
pub open spec fn field(lit: Seq<char>, v: Seq<char>, rest: Seq<char>) -> Seq<char> {
    lit + escape(v) + seq!['"'] + rest
}

/// The frame of a message.
pub open spec fn frame(m: MessageView) -> Seq<char> {
    field(
        "{\"type\":\""@,
        kind_name(m.kind),
        field(
            ",\"session_id\":\""@,
            m.session_id,
            field(",\"sender_id\":\""@, decimal(m.sender_id as nat), field(",\"payload\":\""@, m.payload, "}"@)),
        ),
    )
}

/// Reads a quoted value that starts at `i`, up to and including its closing
/// quote: the value, and the index after the quote.
pub open spec fn scan(s: Seq<char>, i: int) -> Option<(Seq<char>, int)>
    decreases s.len() - i,
{
    if i < 0 || i >= s.len() {
        None
    } else if s[i] == '"' {
        Some((Seq::empty(), i + 1))
    } else if s[i] == '\\' {
        if i + 1 < s.len() && (s[i + 1] == '"' || s[i + 1] == '\\') {
            match scan(s, i + 2) {
                Some((v, j)) => Some((seq![s[i + 1]] + v, j)),
                None => None,
            }
        } else {
            None
        }
    } else {
        match scan(s, i + 1) {
            Some((v, j)) => Some((seq![s[i]] + v, j)),
            None => None,
        }
    }
}

proof fn lemma_escape_cons(c: char, w: Seq<char>)
    ensures
        escape(seq![c] + w) == escaped_char(c) + escape(w),
    decreases w.len(),
{
    if w.len() == 0 {
        assert(seq![c] + w =~= seq![c]);
        assert(seq![c].drop_last() =~= Seq::<char>::empty());
        assert(escape(Seq::<char>::empty()) == Seq::<char>::empty());
        assert(escape(seq![c]) == escape(seq![c].drop_last()) + escaped_char(seq![c].last()));
        assert(escape(seq![c]) =~= escaped_char(c));
        assert(escaped_char(c) + escape(w) =~= escaped_char(c));
    } else {
        lemma_escape_cons(c, w.drop_last());
        assert((seq![c] + w).drop_last() =~= seq![c] + w.drop_last());
        assert(escaped_char(c) + escape(w.drop_last()) + escaped_char(w.last()) =~= escaped_char(c) + escape(w));
    }
}

/// A value escaped and closed by a quote is read back whole.
proof fn lemma_scan_escaped(s: Seq<char>, i: int, v: Seq<char>)
    requires
        0 <= i,
        i + escape(v).len() < s.len(),
        s.subrange(i, i + escape(v).len()) == escape(v),
        s[i + escape(v).len()] == '"',
    ensures
        scan(s, i) == Some((v, i + escape(v).len() + 1)),
    decreases v.len(),
{
    reveal_strlit("\\\"");
    reveal_strlit("\\\\");
    if v.len() == 0 {
    } else {
        let c = v[0];
        let w = v.drop_first();
        assert(v =~= seq![c] + w);
        lemma_escape_cons(c, w);
        let e = escaped_char(c);
        let k = e.len();
        assert(s[i] == e[0]) by {
            assert(s.subrange(i, i + escape(v).len())[0] == escape(v)[0]);
        }
        assert(s.subrange(i + k, i + k + escape(w).len()) =~= escape(w)) by {
            assert forall|t: int| 0 <= t < escape(w).len() implies s.subrange(i + k, i + k + escape(w).len())[t]
                == escape(w)[t] by {
                assert(s.subrange(i, i + escape(v).len())[k + t] == escape(v)[k + t]);
            }
        }
        if k == 2 {
            assert(s[i + 1] == e[1]) by {
                assert(s.subrange(i, i + escape(v).len())[1] == escape(v)[1]);
            }
        }
        lemma_scan_escaped(s, i + k, w);
    }
}

/// What `scan` reads is an escaped value closed by a quote.
proof fn lemma_scan_sound(s: Seq<char>, i: int)
    ensures
        scan(s, i) matches Some((v, j)) ==> i < j <= s.len() && s.subrange(i, j) == escape(v) + seq!['"'],
    decreases s.len() - i,
{
    reveal_strlit("\\\"");
    reveal_strlit("\\\\");
    if 0 <= i < s.len() {
        if s[i] == '"' {
            assert(s.subrange(i, i + 1) =~= escape(Seq::<char>::empty()) + seq!['"']);
        } else if s[i] == '\\' {
            if i + 1 < s.len() && (s[i + 1] == '"' || s[i + 1] == '\\') {
                lemma_scan_sound(s, i + 2);
                if let Some((v, j)) = scan(s, i + 2) {
                    lemma_escape_cons(s[i + 1], v);
                    assert(escaped_char(s[i + 1]) =~= seq![s[i], s[i + 1]]);
                    assert(s.subrange(i, j) =~= seq![s[i], s[i + 1]] + s.subrange(i + 2, j));
                    assert(s.subrange(i, j) =~= escape(seq![s[i + 1]] + v) + seq!['"']);
                }
            }
        } else {
            lemma_scan_sound(s, i + 1);
            if let Some((v, j)) = scan(s, i + 1) {
                lemma_escape_cons(s[i], v);
                assert(escaped_char(s[i]) =~= seq![s[i]]);
                assert(s.subrange(i, j) =~= seq![s[i]] + s.subrange(i + 1, j));
                assert(s.subrange(i, j) =~= escape(seq![s[i]] + v) + seq!['"']);
            }
        }
    }
}

pub open spec fn digit_value(c: char) -> Option<nat> {
    if c == '0' {
        Some(0)
    } else if c == '1' {
        Some(1)
    } else if c == '2' {
        Some(2)
    } else if c == '3' {
        Some(3)
    } else if c == '4' {
        Some(4)
    } else if c == '5' {
        Some(5)
    } else if c == '6' {
        Some(6)
    } else if c == '7' {
        Some(7)
    } else if c == '8' {
        Some(8)
    } else if c == '9' {
        Some(9)
    } else {
        None
    }
}

pub open spec fn all_digits(s: Seq<char>) -> bool {
    forall|i: int| 0 <= i < s.len() ==> (#[trigger] digit_value(s[i])) is Some
}

/// The number that a string of decimal digits stands for.
pub open spec fn value_of(s: Seq<char>) -> nat
    decreases s.len(),
{
    if s.len() == 0 {
        0
    } else {
        value_of(s.drop_last()) * 10 + match digit_value(s.last()) {
            Some(d) => d,
            None => 0,
        }
    }
}

/// The `u64` that a sender id on the wire stands for: its digits must be
/// those that `decimal` writes.
pub open spec fn number_of(d: Seq<char>) -> Option<u64> {
    if d.len() > 0 && all_digits(d) && value_of(d) <= u64::MAX && decimal(value_of(d)) == d {
        Some(value_of(d) as u64)
    } else {
        None
    }
}

proof fn lemma_decimal(n: nat)
    ensures
        decimal(n).len() > 0,
        all_digits(decimal(n)),
        value_of(decimal(n)) == n,
    decreases n,
{
    if n < 10 {
        assert(decimal(n).drop_last() =~= Seq::<char>::empty());
        assert(digit_value(digit_char(n)) == Some(n));
        assert(value_of(Seq::<char>::empty()) == 0);
        assert(value_of(decimal(n)) == value_of(decimal(n).drop_last()) * 10 + n);
    } else {
        lemma_decimal(n / 10);
        let d = decimal(n);
        assert(d.drop_last() =~= decimal(n / 10));
        assert(d.last() == digit_char(n % 10));
        assert(digit_value(digit_char(n % 10)) == Some(n % 10));
        assert(value_of(d) == value_of(decimal(n / 10)) * 10 + n % 10);
        assert((n / 10) * 10 + n % 10 == n);
        assert forall|i: int| 0 <= i < d.len() implies (#[trigger] digit_value(d[i])) is Some by {
            if i < d.len() - 1 {
                assert(d[i] == decimal(n / 10)[i]);
            }
        }
    }
}

proof fn lemma_prefix_value(s: Seq<char>, k: int)
    requires
        all_digits(s),
        0 <= k <= s.len(),
    ensures
        value_of(s.take(k)) <= value_of(s),
    decreases s.len(),
{
    if k == s.len() {
        assert(s.take(k) =~= s);
    } else {
        let t = s.drop_last();
        assert(all_digits(t)) by {
            assert forall|i: int| 0 <= i < t.len() implies (#[trigger] digit_value(t[i])) is Some by {
                assert(t[i] == s[i]);
            }
        }
        lemma_prefix_value(t, k);
        assert(t.take(k) =~= s.take(k));
    }
}

fn digit_of(c: char) -> (r: Option<u64>)
    ensures
        match r {
            Some(x) => digit_value(c) == Some(x as nat) && x < 10,
            None => digit_value(c) is None,
        },
{
    if c == '0' {
        Some(0)
    } else if c == '1' {
        Some(1)
    } else if c == '2' {
        Some(2)
    } else if c == '3' {
        Some(3)
    } else if c == '4' {
        Some(4)
    } else if c == '5' {
        Some(5)
    } else if c == '6' {
        Some(6)
    } else if c == '7' {
        Some(7)
    } else if c == '8' {
        Some(8)
    } else if c == '9' {
        Some(9)
    } else {
        None
    }
}

/// Reads a sender id: the digits that `decimal` writes for a `u64`.
fn parse_decimal(d: &String) -> (r: Option<u64>)
    ensures
        r == number_of(d@),
{
    let n = d.as_str().unicode_len();
    if n == 0 {
        return None;
    }
    let mut v: u64 = 0;
    let mut i: usize = 0;
    while i < n
        invariant
            n == d@.len(),
            i <= n,
            v as nat == value_of(d@.take(i as int)),
            all_digits(d@.take(i as int)),
        decreases n - i,
    {
        let c = d.as_str().get_char(i);
        let t = Ghost(d@.take(i + 1));
        proof {
            assert(t@.drop_last() =~= d@.take(i as int));
            assert(t@.last() == c);
        }
        let x = match digit_of(c) {
            Some(x) => x,
            None => {
                proof {
                    assert(!all_digits(d@));
                }
                return None;
            },
        };
        if v > (u64::MAX - x) / 10 {
            proof {
                assert(v * 10 + x > u64::MAX) by (nonlinear_arith)
                    requires
                        v > (u64::MAX - x) / 10,
                        x < 10,
                ;
                if all_digits(d@) {
                    lemma_prefix_value(d@, i + 1);
                }
            }
            return None;
        }
        proof {
            assert(v * 10 + x <= u64::MAX) by (nonlinear_arith)
                requires
                    v <= (u64::MAX - x) / 10,
                    x < 10,
            ;
            assert forall|k: int| 0 <= k < t@.len() implies (#[trigger] digit_value(t@[k])) is Some by {
                if k < i {
                    assert(t@[k] == d@.take(i as int)[k]);
                }
            }
        }
        v = v * 10 + x;
        i = i + 1;
    }
    proof {
        assert(d@.take(n as int) =~= d@);
    }
    let mut back = String::new();
    append_decimal(&mut back, v);
    proof {
        assert(back@ =~= decimal(v as nat));
    }
    if back == *d {
        Some(v)
    } else {
        None
    }
}

/// Every `u64` is read back from its decimal digits.
proof fn lemma_number_of_decimal(n: u64)
    ensures
        number_of(decimal(n as nat)) == Some(n),
{
    lemma_decimal(n as nat);
}

fn kind_str(k: MessageKind) -> (r: &'static str)
    ensures
        r@ == kind_name(k),
{
    match k {
        MessageKind::Offer => "offer",
        MessageKind::Answer => "answer",
        MessageKind::IceCandidate => "ice",
        MessageKind::Join => "join",
        MessageKind::Leave => "leave",
    }
}

fn append_escaped(out: &mut String, s: &str)
    ensures
        final(out)@ == old(out)@ + escape(s@),
{
    let n = s.unicode_len();
    let mut i: usize = 0;
    while i < n
        invariant
            n == s@.len(),
            i <= n,
            out@ == old(out)@ + escape(s@.take(i as int)),
        decreases n - i,
    {
        let c = s.get_char(i);
        if c == '"' {
            out.append("\\\"");
        } else if c == '\\' {
            out.append("\\\\");
        } else {
            let one = s.substring_char(i, i + 1);
            proof {
                assert(one@ =~= seq![c]);
            }
            out.append(one);
        }
        proof {
            let t = s@.take(i + 1);
            assert(t.drop_last() =~= s@.take(i as int));
            assert(t.last() == c);
            assert(out@ =~= old(out)@ + escape(t));
        }
        i = i + 1;
    }
    proof {
        assert(s@.take(n as int) =~= s@);
    }
}

fn append_digit(out: &mut String, d: u64)
    requires
        d < 10,
    ensures
        final(out)@ == old(out)@ + digit(d as nat),
{
    if d == 0 {
        out.append("0");
        proof {
            reveal_strlit("0");
        }
    } else if d == 1 {
        out.append("1");
        proof {
            reveal_strlit("1");
        }
    } else if d == 2 {
        out.append("2");
        proof {
            reveal_strlit("2");
        }
    } else if d == 3 {
        out.append("3");
        proof {
            reveal_strlit("3");
        }
    } else if d == 4 {
        out.append("4");
        proof {
            reveal_strlit("4");
        }
    } else if d == 5 {
        out.append("5");
        proof {
            reveal_strlit("5");
        }
    } else if d == 6 {
        out.append("6");
        proof {
            reveal_strlit("6");
        }
    } else if d == 7 {
        out.append("7");
        proof {
            reveal_strlit("7");
        }
    } else if d == 8 {
        out.append("8");
        proof {
            reveal_strlit("8");
        }
    } else {
        out.append("9");
        proof {
            reveal_strlit("9");
        }
    }
    proof {
        assert(out@ =~= old(out)@ + digit(d as nat));
    }
}

fn append_decimal(out: &mut String, n: u64)
    ensures
        final(out)@ == old(out)@ + decimal(n as nat),
    decreases n,
{
    if n >= 10 {
        append_decimal(out, n / 10);
        append_digit(out, n % 10);
        proof {
            assert(out@ =~= old(out)@ + decimal(n as nat));
        }
    } else {
        append_digit(out, n);
    }
}

fn append_field(out: &mut String, lit: &str, v: &str)
    ensures
        final(out)@ == old(out)@ + (lit@ + escape(v@) + seq!['"']),
{
    out.append(lit);
    append_escaped(out, v);
    out.append("\"");
    proof {
        reveal_strlit("\"");
        assert(out@ =~= old(out)@ + (lit@ + escape(v@) + seq!['"']));
    }
}

/// The frame that carries message `m`.
pub fn encode(m: &SignalingMessage) -> (r: String)
    ensures
        r@ == frame(m@),
{
    let mut digits = String::new();
    append_decimal(&mut digits, m.sender_id);
    let mut out = String::new();
    append_field(&mut out, "{\"type\":\"", kind_str(m.kind));
    append_field(&mut out, ",\"session_id\":\"", m.session_id.as_str());
    append_field(&mut out, ",\"sender_id\":\"", digits.as_str());
    append_field(&mut out, ",\"payload\":\"", m.payload.as_str());
    out.append("}");
    proof {
        assert(digits@ =~= decimal(m.sender_id as nat));
        assert(out@ =~= frame(m@));
    }
    out
}

pub open spec fn kind_of(v: Seq<char>) -> Option<MessageKind> {
    if v == kind_name(MessageKind::Offer) {
        Some(MessageKind::Offer)
    } else if v == kind_name(MessageKind::Answer) {
        Some(MessageKind::Answer)
    } else if v == kind_name(MessageKind::IceCandidate) {
        Some(MessageKind::IceCandidate)
    } else if v == kind_name(MessageKind::Join) {
        Some(MessageKind::Join)
    } else if v == kind_name(MessageKind::Leave) {
        Some(MessageKind::Leave)
    } else {
        None
    }
}

/// `lit` stands in `s` from index `i` on.
pub open spec fn lit_at(s: Seq<char>, i: int, lit: Seq<char>) -> bool {
    0 <= i && i + lit.len() <= s.len() && s.subrange(i, i + lit.len()) == lit
}

/// The message that a frame carries, read field by field.
pub open spec fn parse(s: Seq<char>) -> Option<MessageView> {
    if !lit_at(s, 0, "{\"type\":\""@) {
        None
    } else {
        match scan(s, "{\"type\":\""@.len() as int) {
            None => None,
            Some((kv, j)) => match kind_of(kv) {
                None => None,
                Some(kind) => parse_session(s, j, kind),
            },
        }
    }
}

pub open spec fn parse_session(s: Seq<char>, i: int, kind: MessageKind) -> Option<MessageView> {
    if !lit_at(s, i, ",\"session_id\":\""@) {
        None
    } else {
        match scan(s, i + ",\"session_id\":\""@.len()) {
            None => None,
            Some((sv, j)) => parse_sender(s, j, kind, sv),
        }
    }
}

pub open spec fn parse_sender(s: Seq<char>, i: int, kind: MessageKind, sv: Seq<char>) -> Option<MessageView> {
    if !lit_at(s, i, ",\"sender_id\":\""@) {
        None
    } else {
        match scan(s, i + ",\"sender_id\":\""@.len()) {
            None => None,
            Some((dv, j)) => match number_of(dv) {
                None => None,
                Some(sender_id) => parse_payload(s, j, kind, sv, sender_id),
            },
        }
    }
}

pub open spec fn parse_payload(s: Seq<char>, i: int, kind: MessageKind, sv: Seq<char>, sender_id: u64) -> Option<
    MessageView,
> {
    if !lit_at(s, i, ",\"payload\":\""@) {
        None
    } else {
        match scan(s, i + ",\"payload\":\""@.len()) {
            None => None,
            Some((pv, j)) => if lit_at(s, j, "}"@) && j + "}"@.len() == s.len() {
                Some(MessageView { kind, sender_id, session_id: sv, payload: pv })
            } else {
                None
            },
        }
    }
}

proof fn lemma_kind_names(k: MessageKind)
    ensures
        kind_of(kind_name(k)) == Some(k),
{
    reveal_strlit("offer");
    reveal_strlit("answer");
    reveal_strlit("ice");
    reveal_strlit("join");
    reveal_strlit("leave");
    assert("offer"@.len() == 5 && "answer"@.len() == 6 && "ice"@.len() == 3 && "join"@.len() == 4 && "leave"@.len() == 5);
    assert("offer"@[0] != "leave"@[0]);
    assert("offer"@ != "leave"@);
    assert("offer"@ != "answer"@);
    assert("offer"@ != "ice"@);
    assert("offer"@ != "join"@);
    assert("answer"@ != "ice"@);
    assert("answer"@ != "join"@);
    assert("answer"@ != "leave"@);
    assert("ice"@ != "join"@);
    assert("ice"@ != "leave"@);
    assert("join"@ != "leave"@);
}

proof fn lemma_field(s: Seq<char>, i: int, lit: Seq<char>, v: Seq<char>, rest: Seq<char>)
    requires
        0 <= i <= s.len(),
        s.subrange(i, s.len() as int) == field(lit, v, rest),
    ensures
        lit_at(s, i, lit),
        scan(s, i + lit.len()) == Some((v, i + lit.len() + escape(v).len() + 1)),
        s.subrange(i + lit.len() + escape(v).len() + 1, s.len() as int) == rest,
{
    let t = s.subrange(i, s.len() as int);
    let e = escape(v);
    let k = lit.len() as int;
    assert(t.len() == k + e.len() + 1 + rest.len());
    assert(s.subrange(i, i + k) =~= lit) by {
        assert forall|x: int| 0 <= x < k implies s.subrange(i, i + k)[x] == lit[x] by {
            assert(t[x] == lit[x]);
        }
    }
    assert(s.subrange(i + k, i + k + e.len()) =~= e) by {
        assert forall|x: int| 0 <= x < e.len() implies s.subrange(i + k, i + k + e.len())[x] == e[x] by {
            assert(t[k + x] == (lit + e)[k + x]);
        }
    }
    assert(s[i + k + e.len()] == '"') by {
        assert(t[k + e.len()] == '"');
    }
    lemma_scan_escaped(s, i + k, v);
    assert(s.subrange(i + k + e.len() + 1, s.len() as int) =~= rest) by {
        assert forall|x: int| 0 <= x < rest.len() implies s.subrange(i + k + e.len() + 1, s.len() as int)[x] == rest[x] by {
            assert(t[k + e.len() + 1 + x] == rest[x]);
        }
    }
}

/// A frame reads back as the message it was written from.
pub proof fn lemma_parse_frame(m: MessageView)
    ensures
        parse(frame(m)) == Some(m),
{
    let s = frame(m);
    let l1 = "{\"type\":\""@;
    let l2 = ",\"session_id\":\""@;
    let l3 = ",\"sender_id\":\""@;
    let l4 = ",\"payload\":\""@;
    let l5 = "}"@;
    let r4 = field(l4, m.payload, l5);
    let r3 = field(l3, decimal(m.sender_id as nat), r4);
    let r2 = field(l2, m.session_id, r3);
    assert(s == field(l1, kind_name(m.kind), r2));
    assert(s.subrange(0, s.len() as int) =~= s);
    lemma_field(s, 0, l1, kind_name(m.kind), r2);
    let j1: int = (l1.len() + escape(kind_name(m.kind)).len() + 1) as int;
    lemma_field(s, j1, l2, m.session_id, r3);
    let j2: int = j1 + l2.len() + escape(m.session_id).len() + 1;
    lemma_field(s, j2, l3, decimal(m.sender_id as nat), r4);
    let j3: int = j2 + l3.len() + escape(decimal(m.sender_id as nat)).len() + 1;
    lemma_field(s, j3, l4, m.payload, l5);
    let j4: int = j3 + l4.len() + escape(m.payload).len() + 1;
    assert(s.subrange(j4, s.len() as int) == l5);
    assert(s.subrange(j4, j4 + l5.len()) == l5);
    assert(parse_payload(s, j3, m.kind, m.session_id, m.sender_id) == Some(m));
    lemma_number_of_decimal(m.sender_id);
    assert(parse_sender(s, j2, m.kind, m.session_id) == Some(m));
    assert(parse_session(s, j1, m.kind) == Some(m));
    lemma_kind_names(m.kind);
}

proof fn lemma_field_sound(s: Seq<char>, i: int, lit: Seq<char>)
    requires
        lit_at(s, i, lit),
        scan(s, i + lit.len()) is Some,
    ensures
        scan(s, i + lit.len()) matches Some((v, j)) && i + lit.len() < j <= s.len() && s.subrange(i, s.len() as int)
            == field(lit, v, s.subrange(j, s.len() as int)),
{
    lemma_scan_sound(s, i + lit.len());
    let (v, j) = scan(s, i + lit.len())->0;
    assert(s.subrange(i, s.len() as int) =~= s.subrange(i, i + lit.len()) + s.subrange(i + lit.len(), j) + s.subrange(
        j,
        s.len() as int,
    ));
}

/// A message read from a frame is written back as that same frame.
pub proof fn lemma_parse_sound(s: Seq<char>)
    requires
        parse(s) is Some,
    ensures
        frame(parse(s)->0) == s,
{
    let l1 = "{\"type\":\""@;
    let l2 = ",\"session_id\":\""@;
    let l3 = ",\"sender_id\":\""@;
    let l4 = ",\"payload\":\""@;
    let l5 = "}"@;
    let m = parse(s)->0;
    lemma_field_sound(s, 0, l1);
    let (kv, j1) = scan(s, l1.len() as int)->0;
    lemma_field_sound(s, j1, l2);
    let (sv, j2) = scan(s, j1 + l2.len())->0;
    lemma_field_sound(s, j2, l3);
    let (dv, j3) = scan(s, j2 + l3.len())->0;
    lemma_field_sound(s, j3, l4);
    let (pv, j4) = scan(s, j3 + l4.len())->0;
    assert(s.subrange(j4, s.len() as int) =~= l5);
    assert(kv == kind_name(m.kind));
    assert(decimal(m.sender_id as nat) == dv);
    assert(s.subrange(0, s.len() as int) =~= s);
}

/// Two messages with the same frame are the same message, so decoding an
/// encoded message gives that message back.
pub proof fn law_frame_injective(a: MessageView, b: MessageView)
    ensures
        frame(a) == frame(b) ==> a == b,
{
    lemma_parse_frame(a);
    lemma_parse_frame(b);
}

/// A text that `parse` refuses is the frame of no message.
pub proof fn lemma_not_a_frame(s: Seq<char>)
    requires
        parse(s) is None,
    ensures
        forall|m: MessageView| frame(m) != s,
{
    assert forall|m: MessageView| frame(m) != s by {
        lemma_parse_frame(m);
    }
}

fn match_at(s: &str, n: usize, i: usize, lit: &str) -> (r: bool)
    requires
        n == s@.len(),
    ensures
        r == lit_at(s@, i as int, lit@),
{
    let m = lit.unicode_len();
    if i > n || m > n - i {
        return false;
    }
    let mut j: usize = 0;
    while j < m
        invariant
            n == s@.len(),
            m == lit@.len(),
            i + m <= n,
            j <= m,
            s@.subrange(i as int, i + j) =~= lit@.take(j as int),
        decreases m - j,
    {
        if s.get_char(i + j) != lit.get_char(j) {
            proof {
                assert(s@.subrange(i as int, i + m)[j as int] != lit@[j as int]);
            }
            return false;
        }
        j = j + 1;
        proof {
            assert(s@.subrange(i as int, i + j) =~= lit@.take(j as int));
        }
    }
    proof {
        assert(lit@.take(m as int) =~= lit@);
    }
    true
}

pub open spec fn prefixed(out: Seq<char>, r: Option<(Seq<char>, int)>) -> Option<(Seq<char>, int)> {
    match r {
        Some((v, j)) => Some((out + v, j)),
        None => None,
    }
}

fn scan_value(s: &str, n: usize, i: usize) -> (r: Option<(String, usize)>)
    requires
        n == s@.len(),
    ensures
        match r {
            Some((v, j)) => scan(s@, i as int) == Some((v@, j as int)),
            None => scan(s@, i as int) is None,
        },
{
    let mut out = String::new();
    let mut k: usize = i;
    while k < n
        invariant
            n == s@.len(),
            i <= k,
            scan(s@, i as int) == prefixed(out@, scan(s@, k as int)),
        decreases n - k,
    {
        let c = s.get_char(k);
        if c == '"' {
            proof {
                assert(out@ + Seq::<char>::empty() =~= out@);
            }
            return Some((out, k + 1));
        } else if c == '\\' {
            if k + 1 < n {
                let d = s.get_char(k + 1);
                if d == '"' || d == '\\' {
                    let ghost before = out@;
                    let one = s.substring_char(k + 1, k + 2);
                    out.append(one);
                    proof {
                        assert(one@ =~= seq![d]);
                        match scan(s@, k + 2) {
                            Some((v, j)) => {
                                assert(before + (seq![d] + v) =~= out@ + v);
                            },
                            None => {},
                        }
                    }
                    k = k + 2;
                } else {
                    return None;
                }
            } else {
                return None;
            }
        } else {
            let ghost before = out@;
            let one = s.substring_char(k, k + 1);
            out.append(one);
            proof {
                assert(one@ =~= seq![c]);
                match scan(s@, k + 1) {
                    Some((v, j)) => {
                        assert(before + (seq![c] + v) =~= out@ + v);
                    },
                    None => {},
                }
            }
            k = k + 1;
        }
    }
    None
}

fn kind_from(v: &String) -> (r: Option<MessageKind>)
    ensures
        r == kind_of(v@),
{
    if *v == String::from_str("offer") {
        Some(MessageKind::Offer)
    } else if *v == String::from_str("answer") {
        Some(MessageKind::Answer)
    } else if *v == String::from_str("ice") {
        Some(MessageKind::IceCandidate)
    } else if *v == String::from_str("join") {
        Some(MessageKind::Join)
    } else if *v == String::from_str("leave") {
        Some(MessageKind::Leave)
    } else {
        None
    }
}

pub(crate) fn parse_frame(f: &str) -> (r: Option<SignalingMessage>)
    ensures
        match r {
            Some(m) => parse(f@) == Some(m@),
            None => parse(f@) is None,
        },
{
    let n = f.unicode_len();
    let l1 = "{\"type\":\"";
    let l2 = ",\"session_id\":\"";
    let l3 = ",\"sender_id\":\"";
    let l4 = ",\"payload\":\"";
    let l5 = "}";
    if !match_at(f, n, 0, l1) {
        return None;
    }
    let (kv, j1) = match scan_value(f, n, l1.unicode_len()) {
        Some(x) => x,
        None => return None,
    };
    let kind = match kind_from(&kv) {
        Some(k) => k,
        None => return None,
    };
    proof {
        lemma_scan_sound(f@, l1@.len() as int);
    }
    if !match_at(f, n, j1, l2) {
        return None;
    }
    let (session_id, j2) = match scan_value(f, n, j1 + l2.unicode_len()) {
        Some(x) => x,
        None => return None,
    };
    proof {
        lemma_scan_sound(f@, j1 + l2@.len());
    }
    if !match_at(f, n, j2, l3) {
        return None;
    }
    let (digits, j3) = match scan_value(f, n, j2 + l3.unicode_len()) {
        Some(x) => x,
        None => return None,
    };
    let sender_id = match parse_decimal(&digits) {
        Some(x) => x,
        None => return None,
    };
    proof {
        lemma_scan_sound(f@, j2 + l3@.len());
    }
    if !match_at(f, n, j3, l4) {
        return None;
    }
    let (payload, j4) = match scan_value(f, n, j3 + l4.unicode_len()) {
        Some(x) => x,
        None => return None,
    };
    proof {
        lemma_scan_sound(f@, j3 + l4@.len());
    }
    if !match_at(f, n, j4, l5) || j4 + l5.unicode_len() != n {
        return None;
    }
    Some(SignalingMessage { kind, sender_id, session_id, payload })
}

/// Reads the message that frame `f` carries. A text that is the frame of no
/// message is refused with `MalformedMessage`.
pub fn decode(f: &str) -> (r: Result<SignalingMessage, SignalError>)
    ensures
        match r {
            Ok(m) => frame(m@) == f@,
            Err(e) => e == SignalError::MalformedMessage && forall|m: MessageView| frame(m) != f@,
        },
{
    match parse_frame(f) {
        Some(m) => {
            proof {
                lemma_parse_sound(f@);
            }
            Ok(m)
        },
        None => {
            proof {
                lemma_not_a_frame(f@);
            }
            Err(SignalError::MalformedMessage)
        },
    }
}

} // verus!
