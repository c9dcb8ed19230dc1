//! The audit serializer: a pure re-derivation of the whole session
//! history as an ordered stream of control events, and its stable,
//! newline-delimited JSON wire encoding.
//!
//! Every call re-walks the three logs from the beginning, so an external
//! inspector can reconstruct the entire history from the latest stream
//! alone.  For one and the same state the encoding is byte-identical
//! across calls.
//!
//! One wire record per event, tagged with its variant:
//! - `{"AdvanceTime":{"timestamp":T}}` — exactly one, first.
//! - `{"StateMessage":{"who":A,"to":"Broadcast","message":M}}` — one per
//!   statement, in insertion order.
//! - `{"AddAgreement":{"agreement":{"at":T,"message":M}}}` — one per
//!   agreement, in insertion order.
//! - `{"EnactAction":{"who":A,"to":"Broadcast","action":{"id":[A,L],
//!   "basis":G,"justification":[M,...]}}}` — one per action, in
//!   insertion order; the justification lists the cited statements in
//!   ascending index order.
//!
//! A message `M` is `{"id":[author,index],"payload":payload}`; an action
//! label `L` is the enactment counter rendered in lower-case bijective
//! base 26 (`a, b, ..., z, aa, ab, ...`).
use vstd::prelude::*;

use crate::ledger::Ledger;
use crate::ledger::LedgerV;
use crate::ledger::Statement;
use crate::ledger::StatementV;
use crate::ledger::ActionV;
use vstd::string::StringExecFns;

verus! {

/// One entry of the audit stream, as the model sees it.
pub enum EventV {
    /// The clock's current value; audit context, emitted first.
    AdvanceTime { timestamp: u64 },
    /// A declared statement, broadcast to all participants.
    StateMessage { msg: StatementV },
    /// An agreement, with the statement it cites.
    AddAgreement { at: u64, msg: StatementV },
    /// An enacted action, with its basis agreement and the cited
    /// statements in ascending index order.
    EnactAction {
        actor: Seq<char>,
        label: usize,
        basis_at: u64,
        basis_msg: StatementV,
        justification: Seq<StatementV>,
    },
}

/// The audit event for one action, with its references resolved against
/// the statement and agreement logs.
pub open spec fn action_event(l: LedgerV, a: ActionV) -> EventV {
    EventV::EnactAction {
        actor: a.actor,
        label: a.label,
        basis_at: l.agreements[a.basis as int].at,
        basis_msg: l.statements[l.agreements[a.basis as int].stmt as int],
        justification: Seq::new(
            a.justification.len(),
            |k: int| l.statements[a.justification[k] as int],
        ),
    }
}

/// The full audit stream of a state: one `AdvanceTime`, then every
/// statement, agreement and action, each log in insertion order.
pub open spec fn events_of(l: LedgerV) -> Seq<EventV> {
    seq![EventV::AdvanceTime { timestamp: l.current }] + Seq::new(
        l.statements.len(),
        |i: int| EventV::StateMessage { msg: l.statements[i] },
    ) + Seq::new(
        l.agreements.len(),
        |i: int|
            EventV::AddAgreement {
                at: l.agreements[i].at,
                msg: l.statements[l.agreements[i].stmt as int],
            },
    ) + Seq::new(l.actions.len(), |i: int| action_event(l, l.actions[i]))
}

/// Law: the audit stream always holds exactly one `AdvanceTime`, first,
/// then one `StateMessage` per statement in insertion order, then one
/// `AddAgreement` per agreement in insertion order, then one
/// `EnactAction` per action in insertion order, and nothing else.
pub proof fn lemma_events_shape(l: LedgerV)
    ensures
        events_of(l).len() == 1 + l.statements.len() + l.agreements.len() + l.actions.len(),
        events_of(l)[0] == (EventV::AdvanceTime { timestamp: l.current }),
        forall|i: int|
            0 <= i < l.statements.len() ==> events_of(l)[1 + i] == (EventV::StateMessage {
                msg: l.statements[i],
            }),
        forall|i: int|
            0 <= i < l.agreements.len() ==> events_of(l)[1 + l.statements.len() + i]
                == (EventV::AddAgreement {
                at: l.agreements[i].at,
                msg: l.statements[l.agreements[i].stmt as int],
            }),
        forall|i: int|
            0 <= i < l.actions.len() ==> events_of(l)[1 + l.statements.len() + l.agreements.len()
                + i] == action_event(l, l.actions[i]),
        forall|i: int|
            1 <= i < events_of(l).len() ==> !((#[trigger] events_of(l)[i]) is AdvanceTime),
{
}

/// The decimal digit `d` as a character.
pub open spec fn digit_char(d: int) -> char {
    if d == 0 {
        '0'
    } else if d == 1 {
        '1'
    } else if d == 2 {
        '2'
    } else if d == 3 {
        '3'
    } else if d == 4 {
        '4'
    } else if d == 5 {
        '5'
    } else if d == 6 {
        '6'
    } else if d == 7 {
        '7'
    } else if d == 8 {
        '8'
    } else {
        '9'
    }
}

/// `n` written in decimal, most significant digit first, no sign and no
/// leading zeros (a single `0` for zero).
pub open spec fn dec_seq(n: int) -> Seq<char>
    recommends
        n >= 0,
    decreases n,
{
    if n < 10 {
        seq![digit_char(n)]
    } else {
        dec_seq(n / 10).push(digit_char(n % 10))
    }
}

/// The hexadecimal digit `d` as a lower-case character.
pub open spec fn hex_char(d: int) -> char {
    if d < 10 {
        digit_char(d)
    } else if d == 10 {
        'a'
    } else if d == 11 {
        'b'
    } else if d == 12 {
        'c'
    } else if d == 13 {
        'd'
    } else if d == 14 {
        'e'
    } else {
        'f'
    }
}

/// The JSON escape of one character: quotes, backslashes and the named
/// control characters get their two-character escapes, other control
/// characters a `\u00XX` escape, everything else stands as itself.
pub open spec fn escape_char(c: char) -> Seq<char> {
    if c == '"' {
        seq!['\\', '"']
    } else if c == '\\' {
        seq!['\\', '\\']
    } else if c == '\n' {
        seq!['\\', 'n']
    } else if c == '\r' {
        seq!['\\', 'r']
    } else if c == '\t' {
        seq!['\\', 't']
    } else if (c as u32) < 32 {
        seq!['\\', 'u', '0', '0', hex_char(c as u32 as int / 16), hex_char(c as u32 as int % 16)]
    } else {
        seq![c]
    }
}

/// `s` with every character JSON-escaped.
pub open spec fn escaped(s: Seq<char>) -> Seq<char>
    decreases s.len(),
{
    if s.len() == 0 {
        Seq::empty()
    } else {
        escaped(s.drop_last()) + escape_char(s.last())
    }
}

/// `s` as a JSON string: escaped and quoted.
pub open spec fn json_str(s: Seq<char>) -> Seq<char> {
    seq!['"'] + escaped(s) + seq!['"']
}

/// The letter for one bijective-base-26 digit: `0` is `a`, `25` is `z`.
pub open spec fn letter_char(d: int) -> char {
    if d == 0 {
        'a'
    } else if d == 1 {
        'b'
    } else if d == 2 {
        'c'
    } else if d == 3 {
        'd'
    } else if d == 4 {
        'e'
    } else if d == 5 {
        'f'
    } else if d == 6 {
        'g'
    } else if d == 7 {
        'h'
    } else if d == 8 {
        'i'
    } else if d == 9 {
        'j'
    } else if d == 10 {
        'k'
    } else if d == 11 {
        'l'
    } else if d == 12 {
        'm'
    } else if d == 13 {
        'n'
    } else if d == 14 {
        'o'
    } else if d == 15 {
        'p'
    } else if d == 16 {
        'q'
    } else if d == 17 {
        'r'
    } else if d == 18 {
        's'
    } else if d == 19 {
        't'
    } else if d == 20 {
        'u'
    } else if d == 21 {
        'v'
    } else if d == 22 {
        'w'
    } else if d == 23 {
        'x'
    } else if d == 24 {
        'y'
    } else {
        'z'
    }
}

/// The human-readable alias of an enactment counter, in lower-case
/// bijective base 26: `0` is `a`, `25` is `z`, `26` is `aa`, and so on,
/// unbounded.  A presentation-layer rendering only: the stored label is
/// the plain counter.
pub open spec fn label_seq(n: int) -> Seq<char>
    recommends
        n >= 0,
    decreases n,
{
    if n < 26 {
        seq![letter_char(n)]
    } else {
        label_seq(n / 26 - 1).push(letter_char(n % 26))
    }
}

/// The wire encoding of one statement.
pub open spec fn msg_json(m: StatementV) -> Seq<char> {
    "{\"id\":["@ + json_str(m.author) + seq![','] + dec_seq(m.index as int) + "],\"payload\":"@
        + json_str(m.payload) + seq!['}']
}

/// The wire encoding of one agreement: its time and the statement it
/// cites.
pub open spec fn agree_json(at: u64, m: StatementV) -> Seq<char> {
    "{\"at\":"@ + dec_seq(at as int) + ",\"message\":"@ + msg_json(m) + seq!['}']
}

/// The wire encoding of a list of statements, comma-separated.
pub open spec fn msgs_json(ms: Seq<StatementV>) -> Seq<char>
    decreases ms.len(),
{
    if ms.len() == 0 {
        Seq::empty()
    } else if ms.len() == 1 {
        msg_json(ms[0])
    } else {
        msgs_json(ms.drop_last()) + seq![','] + msg_json(ms.last())
    }
}

/// The wire record of one audit event.
pub open spec fn line_of(e: EventV) -> Seq<char> {
    match e {
        EventV::AdvanceTime { timestamp } => "{\"AdvanceTime\":{\"timestamp\":"@ + dec_seq(
            timestamp as int,
        ) + "}}"@,
        EventV::StateMessage { msg } => "{\"StateMessage\":{\"who\":"@ + json_str(msg.author)
            + ",\"to\":\"Broadcast\",\"message\":"@ + msg_json(msg) + "}}"@,
        EventV::AddAgreement { at, msg } => "{\"AddAgreement\":{\"agreement\":"@ + agree_json(
            at,
            msg,
        ) + "}}"@,
        EventV::EnactAction { actor, label, basis_at, basis_msg, justification } => {
            "{\"EnactAction\":{\"who\":"@ + json_str(actor) + ",\"to\":\"Broadcast\",\"action\":{\"id\":["@
                + json_str(actor) + seq![','] + seq!['"'] + label_seq(label as int) + seq!['"']
                + "],\"basis\":"@ + agree_json(basis_at, basis_msg) + ",\"justification\":["@
                + msgs_json(justification) + "]}}}"@
        },
    }
}

/// The whole wire stream of a state, one record per audit event.
pub open spec fn lines_of(l: LedgerV) -> Seq<Seq<char>> {
    events_of(l).map_values(|e: EventV| line_of(e))
}

/// Relies on std's String::push: appends exactly the given character to
/// the end of the string.
pub assume_specification[ String::push ](s: &mut String, ch: char)
    ensures
        final(s)@ == old(s)@.push(ch),
;

/// The decimal digit `d`, executably.
fn digit_char_x(d: u64) -> (c: char)
    requires
        d < 10,
    ensures
        c == digit_char(d as int),
{
    if d == 0 {
        '0'
    } else if d == 1 {
        '1'
    } else if d == 2 {
        '2'
    } else if d == 3 {
        '3'
    } else if d == 4 {
        '4'
    } else if d == 5 {
        '5'
    } else if d == 6 {
        '6'
    } else if d == 7 {
        '7'
    } else if d == 8 {
        '8'
    } else {
        '9'
    }
}

/// The hexadecimal digit `d`, executably.
fn hex_char_x(d: u32) -> (c: char)
    requires
        d < 16,
    ensures
        c == hex_char(d as int),
{
    if d < 10 {
        digit_char_x(d as u64)
    } else if d == 10 {
        'a'
    } else if d == 11 {
        'b'
    } else if d == 12 {
        'c'
    } else if d == 13 {
        'd'
    } else if d == 14 {
        'e'
    } else {
        'f'
    }
}

/// The bijective-base-26 letter `d`, executably.
fn letter_char_x(d: usize) -> (c: char)
    requires
        d < 26,
    ensures
        c == letter_char(d as int),
{
    if d == 0 {
        'a'
    } else if d == 1 {
        'b'
    } else if d == 2 {
        'c'
    } else if d == 3 {
        'd'
    } else if d == 4 {
        'e'
    } else if d == 5 {
        'f'
    } else if d == 6 {
        'g'
    } else if d == 7 {
        'h'
    } else if d == 8 {
        'i'
    } else if d == 9 {
        'j'
    } else if d == 10 {
        'k'
    } else if d == 11 {
        'l'
    } else if d == 12 {
        'm'
    } else if d == 13 {
        'n'
    } else if d == 14 {
        'o'
    } else if d == 15 {
        'p'
    } else if d == 16 {
        'q'
    } else if d == 17 {
        'r'
    } else if d == 18 {
        's'
    } else if d == 19 {
        't'
    } else if d == 20 {
        'u'
    } else if d == 21 {
        'v'
    } else if d == 22 {
        'w'
    } else if d == 23 {
        'x'
    } else if d == 24 {
        'y'
    } else {
        'z'
    }
}

/// Appends `n` in decimal to `out`.
fn push_dec(out: &mut String, n: u64)
    ensures
        final(out)@ == old(out)@ + dec_seq(n as int),
    decreases n,
{
    if n < 10 {
        out.push(digit_char_x(n));
        proof {
            assert(final(out)@ =~= old(out)@ + dec_seq(n as int));
        }
    } else {
        push_dec(out, n / 10);
        out.push(digit_char_x(n % 10));
        proof {
            assert(final(out)@ =~= old(out)@ + dec_seq(n as int));
        }
    }
}

/// Appends the bijective-base-26 alias of counter `n` to `out`.
fn push_label(out: &mut String, n: usize)
    ensures
        final(out)@ == old(out)@ + label_seq(n as int),
    decreases n,
{
    if n < 26 {
        out.push(letter_char_x(n));
        proof {
            assert(final(out)@ =~= old(out)@ + label_seq(n as int));
        }
    } else {
        push_label(out, n / 26 - 1);
        out.push(letter_char_x(n % 26));
        proof {
            assert(final(out)@ =~= old(out)@ + label_seq(n as int));
        }
    }
}

/// Appends the JSON escape of one character to `out`.
fn push_escape(out: &mut String, c: char)
    ensures
        final(out)@ == old(out)@ + escape_char(c),
{
    if c == '"' {
        out.push('\\');
        out.push('"');
    } else if c == '\\' {
        out.push('\\');
        out.push('\\');
    } else if c == '\n' {
        out.push('\\');
        out.push('n');
    } else if c == '\r' {
        out.push('\\');
        out.push('r');
    } else if c == '\t' {
        out.push('\\');
        out.push('t');
    } else if (c as u32) < 32 {
        let v = c as u32;
        out.push('\\');
        out.push('u');
        out.push('0');
        out.push('0');
        out.push(hex_char_x(v / 16));
        out.push(hex_char_x(v % 16));
    } else {
        out.push(c);
    }
    proof {
        assert(final(out)@ =~= old(out)@ + escape_char(c));
    }
}

/// Appends `s` as a quoted, escaped JSON string to `out`.
#[verifier::loop_isolation(false)]
fn push_json_str(out: &mut String, s: &str)
    ensures
        final(out)@ == old(out)@ + json_str(s@),
{
    out.push('"');
    let n = s.unicode_len();
    let mut i: usize = 0;
    while i < n
        invariant
            i <= n,
            out@ == old(out)@ + seq!['"'] + escaped(s@.subrange(0, i as int)),
        decreases n - i,
    {
        let c = s.get_char(i);
        push_escape(out, c);
        proof {
            let cur = s@.subrange(0, i + 1 as int);
            assert(cur.drop_last() =~= s@.subrange(0, i as int));
            assert(cur.last() == s@[i as int]);
            assert(out@ =~= old(out)@ + seq!['"'] + escaped(cur));
        }
        i = i + 1;
    }
    out.push('"');
    proof {
        assert(s@.subrange(0, n as int) =~= s@);
        assert(final(out)@ =~= old(out)@ + json_str(s@));
    }
}

/// Appends the wire encoding of one statement to `out`.
fn push_msg(out: &mut String, m: &Statement)
    ensures
        final(out)@ == old(out)@ + msg_json(m@),
{
    out.append("{\"id\":[");
    push_json_str(out, m.author.as_str());
    out.push(',');
    push_dec(out, m.index as u64);
    out.append("],\"payload\":");
    push_json_str(out, m.payload.as_str());
    out.push('}');
    proof {
        assert(final(out)@ =~= old(out)@ + msg_json(m@));
    }
}

/// Appends the wire encoding of one agreement to `out`.
fn push_agree(out: &mut String, at: u64, m: &Statement)
    ensures
        final(out)@ == old(out)@ + agree_json(at, m@),
{
    out.append("{\"at\":");
    push_dec(out, at);
    out.append(",\"message\":");
    push_msg(out, m);
    out.push('}');
    proof {
        assert(final(out)@ =~= old(out)@ + agree_json(at, m@));
    }
}

/// The views of a vector of wire records.
pub open spec fn lines_view(v: Seq<String>) -> Seq<Seq<char>> {
    Seq::new(v.len(), |i: int| v[i]@)
}

impl Ledger {
    /// Re-derives the whole history as its wire stream: one record per
    /// audit event, in the stream's canonical order.  A pure function
    /// of the state — nothing is mutated, and an unchanged state yields
    /// a byte-identical stream.
    #[verifier::loop_isolation(false)]
    pub fn serialize(&self) -> (lines: Vec<String>)
        requires
            self@.wf(),
        ensures
            lines@.len() == events_of(self@).len(),
            forall|i: int| 0 <= i < lines@.len() ==> lines@[i]@ == line_of(events_of(self@)[i]),
            lines_view(lines@) == lines_of(self@),
    {
        let ghost lv = self@;
        proof {
            lemma_events_shape(lv);
        }
        let mut lines: Vec<String> = Vec::new();
        let mut s = String::new();
        s.append("{\"AdvanceTime\":{\"timestamp\":");
        push_dec(&mut s, self.current);
        s.append("}}");
        proof {
            assert(s@ =~= line_of(events_of(lv)[0]));
        }
        lines.push(s);
        let ns = self.statements.len();
        let na = self.agreements.len();
        let mut i: usize = 0;
        while i < ns
            invariant
                i <= ns,
                lines@.len() == 1 + i,
                forall|k: int| 0 <= k < lines@.len() ==> lines@[k]@ == line_of(events_of(lv)[k]),
            decreases ns - i,
        {
            let st = &self.statements[i];
            let mut s = String::new();
            s.append("{\"StateMessage\":{\"who\":");
            push_json_str(&mut s, st.author.as_str());
            s.append(",\"to\":\"Broadcast\",\"message\":");
            push_msg(&mut s, st);
            s.append("}}");
            proof {
                assert(st@ == lv.statements[i as int]);
                assert(s@ =~= line_of(events_of(lv)[1 + i]));
            }
            lines.push(s);
            i = i + 1;
        }
        let mut i: usize = 0;
        while i < na
            invariant
                i <= na,
                lines@.len() == 1 + ns + i,
                forall|k: int| 0 <= k < lines@.len() ==> lines@[k]@ == line_of(events_of(lv)[k]),
            decreases na - i,
        {
            let a = &self.agreements[i];
            proof {
                assert(a@ == lv.agreements[i as int]);
                assert(lv.agreements[i as int].stmt < lv.statements.len());
            }
            let m = &self.statements[a.stmt];
            let mut s = String::new();
            s.append("{\"AddAgreement\":{\"agreement\":");
            push_agree(&mut s, a.at, m);
            s.append("}}");
            proof {
                assert(m@ == lv.statements[a@.stmt as int]);
                assert(s@ =~= line_of(events_of(lv)[1 + ns + i]));
            }
            lines.push(s);
            i = i + 1;
        }
        let mut i: usize = 0;
        while i < self.actions.len()
            invariant
                i <= self.actions.len(),
                lines@.len() == 1 + ns + na + i,
                forall|k: int| 0 <= k < lines@.len() ==> lines@[k]@ == line_of(events_of(lv)[k]),
            decreases self.actions.len() - i,
        {
            let e = &self.actions[i];
            proof {
                assert(e@ == lv.actions[i as int]);
                assert(crate::ledger::action_wf(
                    lv.actions[i as int],
                    i as int,
                    na as int,
                    ns as int,
                ));
            }
            let mut s = String::new();
            s.append("{\"EnactAction\":{\"who\":");
            push_json_str(&mut s, e.actor.as_str());
            s.append(",\"to\":\"Broadcast\",\"action\":{\"id\":[");
            push_json_str(&mut s, e.actor.as_str());
            s.push(',');
            s.push('"');
            push_label(&mut s, e.label);
            s.push('"');
            s.append("],\"basis\":");
            let ba = &self.agreements[e.basis];
            proof {
                assert(ba@ == lv.agreements[e@.basis as int]);
                assert(lv.agreements[e@.basis as int].stmt < lv.statements.len());
            }
            let bm = &self.statements[ba.stmt];
            push_agree(&mut s, ba.at, bm);
            s.append(",\"justification\":[");
            let ghost ms = Seq::new(
                e@.justification.len(),
                |q: int| lv.statements[e@.justification[q] as int],
            );
            let ghost base = s@;
            let mut k: usize = 0;
            while k < e.justification.len()
                invariant
                    k <= e.justification.len(),
                    s@ == base + msgs_json(ms.subrange(0, k as int)),
                decreases e.justification.len() - k,
            {
                if k > 0 {
                    s.push(',');
                }
                let m = &self.statements[e.justification[k]];
                push_msg(&mut s, m);
                proof {
                    let cur = ms.subrange(0, k + 1 as int);
                    assert(cur.drop_last() =~= ms.subrange(0, k as int));
                    assert(cur.last() == ms[k as int]);
                    assert(m@ == ms[k as int]);
                    if k == 0 {
                        assert(msgs_json(cur) == msg_json(ms[0]));
                        assert(ms.subrange(0, 0) =~= Seq::<StatementV>::empty());
                        assert(s@ =~= base + msgs_json(cur));
                    } else {
                        assert(s@ =~= base + msgs_json(cur));
                    }
                }
                k = k + 1;
            }
            s.append("]}}}");
            proof {
                assert(ms.subrange(0, e@.justification.len() as int) =~= ms);
                assert(s@ =~= line_of(events_of(lv)[1 + ns + na + i]));
            }
            lines.push(s);
            i = i + 1;
        }
        proof {
            assert(lines_view(lines@) =~= lines_of(lv));
        }
        lines
    }
}

/// Law: the serialized stream is a function of the state alone, so two
/// derivations from one and the same state are byte-identical.
pub proof fn lemma_serialize_deterministic(l: LedgerV, a: Seq<Seq<char>>, b: Seq<Seq<char>>)
    requires
        a == lines_of(l),
        b == lines_of(l),
    ensures
        a == b,
{
}

} // verus!
