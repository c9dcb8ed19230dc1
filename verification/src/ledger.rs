//! The append-only ledger: declared statements, binding agreements,
//! enacted actions, and the session clock.
//!
//! The three logs are dense, 0-indexed, and append-only.  Agreements and
//! actions hold index-based references into the statement log rather than
//! copies, so every record cites the canonical statement storage.
use vstd::prelude::*;

verus! {

/// A declared fact: an author's label, the position it was declared at,
/// and an opaque payload.  Immutable once created.
pub struct Statement {
    pub author: String,
    pub index: usize,
    pub payload: String,
}

/// A statement elevated to binding status at time `at`.  `stmt` is the
/// index of the cited statement in the statement log.
pub struct Agreement {
    pub at: u64,
    pub stmt: usize,
}

/// An actor's exercise of authority: one agreement as the legal basis and
/// a set of statements as justification.  `label` is the process-wide
/// enactment counter (unbounded; rendered as `a, b, ..., aa, ...` only at
/// the presentation layer).  `justification` is kept sorted ascending and
/// without duplicates, as the canonical form of the cited index set.
pub struct EnactedAction {
    pub actor: String,
    pub label: usize,
    pub basis: usize,
    pub justification: Vec<usize>,
}

/// The mathematical model of a statement.
#[verifier::ext_equal]
pub struct StatementV {
    pub author: Seq<char>,
    pub index: usize,
    pub payload: Seq<char>,
}

/// The mathematical model of an agreement.
#[verifier::ext_equal]
pub struct AgreementV {
    pub at: u64,
    pub stmt: usize,
}

/// The mathematical model of an enacted action.
#[verifier::ext_equal]
pub struct ActionV {
    pub actor: Seq<char>,
    pub label: usize,
    pub basis: usize,
    pub justification: Seq<usize>,
}

/// The mathematical model of the whole session state.
#[verifier::ext_equal]
pub struct LedgerV {
    pub current: u64,
    pub statements: Seq<StatementV>,
    pub agreements: Seq<AgreementV>,
    pub actions: Seq<ActionV>,
}

impl View for Statement {
    type V = StatementV;

    open spec fn view(&self) -> StatementV {
        StatementV { author: self.author@, index: self.index, payload: self.payload@ }
    }
}

impl View for Agreement {
    type V = AgreementV;

    open spec fn view(&self) -> AgreementV {
        AgreementV { at: self.at, stmt: self.stmt }
    }
}

impl View for EnactedAction {
    type V = ActionV;

    open spec fn view(&self) -> ActionV {
        ActionV {
            actor: self.actor@,
            label: self.label,
            basis: self.basis,
            justification: self.justification@,
        }
    }
}

/// The whole mutable session state: one clock plus the three append-only
/// logs, passed explicitly to every operation.
pub struct Ledger {
    pub current: u64,
    pub statements: Vec<Statement>,
    pub agreements: Vec<Agreement>,
    pub actions: Vec<EnactedAction>,
}

pub open spec fn statements_view(v: Seq<Statement>) -> Seq<StatementV> {
    Seq::new(v.len(), |i: int| v[i]@)
}

pub open spec fn agreements_view(v: Seq<Agreement>) -> Seq<AgreementV> {
    Seq::new(v.len(), |i: int| v[i]@)
}

pub open spec fn actions_view(v: Seq<EnactedAction>) -> Seq<ActionV> {
    Seq::new(v.len(), |i: int| v[i]@)
}

impl View for Ledger {
    type V = LedgerV;

    open spec fn view(&self) -> LedgerV {
        LedgerV {
            current: self.current,
            statements: statements_view(self.statements@),
            agreements: agreements_view(self.agreements@),
            actions: actions_view(self.actions@),
        }
    }
}

/// `s` holds strictly increasing values: sorted ascending, no duplicates.
pub open spec fn strictly_sorted(s: Seq<usize>) -> bool {
    forall|i: int, j: int| 0 <= i < j < s.len() ==> s[i] < s[j]
}

pub open spec fn action_wf(a: ActionV, k: int, n_agree: int, n_stmt: int) -> bool {
    &&& a.label == k
    &&& a.basis < n_agree
    &&& strictly_sorted(a.justification)
    &&& forall|j: int| 0 <= j < a.justification.len() ==> a.justification[j] < n_stmt
}

impl LedgerV {
    /// Referential integrity of the whole state: statement indices are the
    /// dense insertion order, every agreement cites an existing statement,
    /// and every action cites an existing agreement and existing statements.
    pub open spec fn wf(self) -> bool {
        &&& forall|i: int|
            0 <= i < self.statements.len() ==> (#[trigger] self.statements[i]).index == i
        &&& forall|i: int|
            0 <= i < self.agreements.len() ==> (#[trigger] self.agreements[i]).stmt
                < self.statements.len()
        &&& forall|i: int|
            0 <= i < self.actions.len() ==> action_wf(
                #[trigger] self.actions[i],
                i,
                self.agreements.len() as int,
                self.statements.len() as int,
            )
    }
}

impl Ledger {
    /// A fresh session: time zero, all three logs empty.
    pub fn new() -> (r: Ledger)
        ensures
            r@ == (LedgerV {
                current: 0,
                statements: Seq::<StatementV>::empty(),
                agreements: Seq::<AgreementV>::empty(),
                actions: Seq::<ActionV>::empty(),
            }),
            r@.wf(),
    {
        let r = Ledger { current: 0, statements: Vec::new(), agreements: Vec::new(), actions: Vec::new() };
        proof {
            assert(r@ =~= (LedgerV {
                current: 0,
                statements: Seq::<StatementV>::empty(),
                agreements: Seq::<AgreementV>::empty(),
                actions: Seq::<ActionV>::empty(),
            }));
        }
        r
    }

    /// Appends a declared fact and returns its index.  Always succeeds;
    /// nothing else in the state changes.
    pub fn declare(&mut self, author: String, payload: String) -> (idx: usize)
        requires
            old(self)@.wf(),
        ensures
            final(self)@.wf(),
            idx == old(self)@.statements.len(),
            final(self)@.current == old(self)@.current,
            final(self)@.agreements == old(self)@.agreements,
            final(self)@.actions == old(self)@.actions,
            final(self)@.statements == old(self)@.statements.push(
                StatementV { author: author@, index: idx, payload: payload@ },
            ),
            final(self)@ == apply_op(
                old(self)@,
                (OpV::Declare { author: author@, payload: payload@ }),
            ),
    {
        let idx = self.statements.len();
        let ghost pre = self@;
        self.statements.push(Statement { author, payload, index: idx });
        proof {
            assert(final(self)@.statements =~= pre.statements.push(
                StatementV { author: author@, index: idx, payload: payload@ },
            ));
            assert(final(self)@.agreements =~= pre.agreements);
            assert(final(self)@.actions =~= pre.actions);
            assert(final(self)@ =~= apply_op(
                pre,
                (OpV::Declare { author: author@, payload: payload@ }),
            ));
        }
        idx
    }

    /// Binds statement `stmt_index` at time `at`, returning the new
    /// agreement's index, or rejects an unknown statement index and leaves
    /// the state untouched.
    pub fn bind(&mut self, stmt_index: usize, at: u64) -> (r: Result<usize, LedgerError>)
        requires
            old(self)@.wf(),
        ensures
            final(self)@.wf(),
            final(self)@.current == old(self)@.current,
            final(self)@.statements == old(self)@.statements,
            final(self)@.actions == old(self)@.actions,
            stmt_index < old(self)@.statements.len() ==> {
                &&& r == Ok::<usize, LedgerError>(old(self)@.agreements.len() as usize)
                &&& final(self)@.agreements == old(self)@.agreements.push(
                    AgreementV { at, stmt: stmt_index },
                )
            },
            stmt_index >= old(self)@.statements.len() ==> {
                &&& r == Err::<usize, LedgerError>(LedgerError::UnknownStatement(stmt_index))
                &&& final(self)@ == old(self)@
            },
            final(self)@ == apply_op(old(self)@, (OpV::Bind { stmt: stmt_index, at })),
    {
        if stmt_index >= self.statements.len() {
            return Err(LedgerError::UnknownStatement(stmt_index));
        }
        let ghost pre = self@;
        let idx = self.agreements.len();
        self.agreements.push(Agreement { at, stmt: stmt_index });
        proof {
            assert(final(self)@.agreements =~= pre.agreements.push(
                AgreementV { at, stmt: stmt_index },
            ));
            assert(final(self)@.statements =~= pre.statements);
            assert(final(self)@.actions =~= pre.actions);
            assert(final(self)@ =~= apply_op(pre, (OpV::Bind { stmt: stmt_index, at })));
        }
        Ok(idx)
    }

    /// Enacts an action: `basis` must cite an existing agreement and
    /// every index in `justification` an existing statement; the checks
    /// run in that order.  On success the action is appended, carrying
    /// the next value of the process-wide enactment counter as its
    /// label, and that label is returned.  Re-enacting the same basis
    /// and justification is permitted and appends a distinct entry.
    /// When several cited indices are undeclared, the smallest one is
    /// reported.
    pub fn enact(&mut self, actor: String, basis: usize, justification: Vec<usize>) -> (r: Result<
        usize,
        LedgerError,
    >)
        requires
            old(self)@.wf(),
        ensures
            final(self)@.wf(),
            final(self)@.current == old(self)@.current,
            final(self)@.statements == old(self)@.statements,
            final(self)@.agreements == old(self)@.agreements,
            basis >= old(self)@.agreements.len() ==> {
                &&& r == Err::<usize, LedgerError>(LedgerError::BasisUnknown(basis))
                &&& final(self)@ == old(self)@
            },
            basis < old(self)@.agreements.len() && has_unknown(
                justification@,
                old(self)@.statements.len() as int,
            ) ==> {
                let ju = first_unknown(justification@, old(self)@.statements.len() as int);
                &&& r == Err::<usize, LedgerError>(LedgerError::JustificationUnknown(ju))
                &&& final(self)@ == old(self)@
                &&& justification@.contains(ju)
                &&& ju >= old(self)@.statements.len()
                &&& forall|k: int|
                    0 <= k < justification@.len() && justification@[k]
                        >= old(self)@.statements.len() ==> ju <= justification@[k]
            },
            basis < old(self)@.agreements.len() && !has_unknown(
                justification@,
                old(self)@.statements.len() as int,
            ) ==> {
                &&& r == Ok::<usize, LedgerError>(old(self)@.actions.len() as usize)
                &&& final(self)@.actions == old(self)@.actions.push(
                    ActionV {
                        actor: actor@,
                        label: old(self)@.actions.len() as usize,
                        basis,
                        justification: normalized(justification@),
                    },
                )
            },
            final(self)@ == apply_op(
                old(self)@,
                (OpV::Enact { actor: actor@, basis, justification: justification@ }),
            ),
    {
        if basis >= self.agreements.len() {
            return Err(LedgerError::BasisUnknown(basis));
        }
        let canon = normalize_justification(&justification);
        let n_stmt = self.statements.len();
        let pos = lower_bound_vec(&canon, n_stmt);
        proof {
            lemma_normalized(justification@);
            lemma_lower_bound(canon@, n_stmt as int);
        }
        if pos < canon.len() {
            let ju = canon[pos];
            proof {
                assert(canon@.contains(ju));
                assert(justification@.contains(ju));
                assert(has_unknown(justification@, n_stmt as int)) by {
                    let k = choose|k: int|
                        0 <= k < justification@.len() && justification@[k] == ju;
                    assert(justification@[k] >= n_stmt);
                }
                assert forall|k: int|
                    0 <= k < justification@.len() && justification@[k] >= n_stmt implies ju
                    <= justification@[k] by {
                    let y = justification@[k];
                    assert(canon@.contains(y));
                    let q = choose|q: int| 0 <= q < canon@.len() && canon@[q] == y;
                    assert(q >= pos);
                }
            }
            return Err(LedgerError::JustificationUnknown(ju));
        }
        proof {
            assert(!has_unknown(justification@, n_stmt as int)) by {
                assert forall|k: int|
                    0 <= k < justification@.len() implies justification@[k] < n_stmt by {
                    let y = justification@[k];
                    assert(justification@.contains(y));
                    assert(canon@.contains(y));
                    let q = choose|q: int| 0 <= q < canon@.len() && canon@[q] == y;
                    assert(canon@[q] < n_stmt);
                }
            }
        }
        let ghost pre = self@;
        let label = self.actions.len();
        let ghost new_action = ActionV {
            actor: actor@,
            label,
            basis,
            justification: canon@,
        };
        self.actions.push(EnactedAction { actor, label, basis, justification: canon });
        proof {
            assert(final(self)@.actions =~= pre.actions.push(new_action));
            assert(final(self)@.statements =~= pre.statements);
            assert(final(self)@.agreements =~= pre.agreements);
            assert forall|j: int| 0 <= j < canon@.len() implies canon@[j] < n_stmt by {
                assert(canon@.contains(canon@[j]));
                let q = choose|q: int| 0 <= q < canon@.len() && canon@[q] == canon@[j];
            }
            assert(action_wf(
                new_action,
                pre.actions.len() as int,
                pre.agreements.len() as int,
                pre.statements.len() as int,
            ));
            assert(final(self)@ =~= apply_op(
                pre,
                (OpV::Enact { actor: actor@, basis, justification: justification@ }),
            ));
        }
        Ok(label)
    }

    /// Applies one mutation request: dispatches to `declare`, `bind`,
    /// `enact` or `set_time` and reports the outcome or the rejection.
    pub fn update(&mut self, cmd: UpdateCmd) -> (r: Result<UpdateOutcome, LedgerError>)
        requires
            old(self)@.wf(),
        ensures
            final(self)@.wf(),
            final(self)@ == apply_op(old(self)@, cmd@),
            cmd@ is Declare ==> r == Ok::<UpdateOutcome, LedgerError>(
                UpdateOutcome::NewStatement(old(self)@.statements.len() as usize),
            ),
            cmd@ matches OpV::Bind { stmt, .. } ==> r == (if stmt < old(self)@.statements.len() {
                Ok::<UpdateOutcome, LedgerError>(
                    UpdateOutcome::NewAgreement(old(self)@.agreements.len() as usize),
                )
            } else {
                Err(LedgerError::UnknownStatement(stmt))
            }),
            cmd@ matches OpV::Enact { basis, justification, .. } ==> r == (if basis
                >= old(self)@.agreements.len() {
                Err::<UpdateOutcome, LedgerError>(LedgerError::BasisUnknown(basis))
            } else if has_unknown(justification, old(self)@.statements.len() as int) {
                Err(
                    LedgerError::JustificationUnknown(
                        first_unknown(justification, old(self)@.statements.len() as int),
                    ),
                )
            } else {
                Ok(UpdateOutcome::NewAction(old(self)@.actions.len() as usize))
            }),
            cmd@ is SetTime ==> r == Ok::<UpdateOutcome, LedgerError>(UpdateOutcome::TimeSet),
    {
        match cmd {
            UpdateCmd::Say { sayer, payload } => {
                let i = self.declare(sayer, payload);
                Ok(UpdateOutcome::NewStatement(i))
            },
            UpdateCmd::Agree { on_idx, at } => {
                match self.bind(on_idx, at) {
                    Ok(i) => Ok(UpdateOutcome::NewAgreement(i)),
                    Err(e) => Err(e),
                }
            },
            UpdateCmd::Enact { actor, basis, justification } => {
                match self.enact(actor, basis, justification) {
                    Ok(i) => Ok(UpdateOutcome::NewAction(i)),
                    Err(e) => Err(e),
                }
            },
            UpdateCmd::Now { now } => {
                self.set_time(now);
                Ok(UpdateOutcome::TimeSet)
            },
        }
    }

    /// Overwrites the clock.  Explicitly non-monotonic: "now" may move
    /// backward; records already created keep whatever `at` they carry.
    pub fn set_time(&mut self, now: u64)
        requires
            old(self)@.wf(),
        ensures
            final(self)@.wf(),
            final(self)@ == (LedgerV { current: now, ..old(self)@ }),
            final(self)@ == apply_op(old(self)@, (OpV::SetTime { now })),
    {
        self.current = now;
        proof {
            assert(final(self)@ =~= (LedgerV { current: now, ..old(self)@ }));
        }
    }
}

/// The position of the first value `>= x` in `s`; `s.len()` if there is
/// none.  On a sorted sequence this is the insertion point for `x`.
pub open spec fn lower_bound(s: Seq<usize>, x: int) -> int
    decreases s.len(),
{
    if s.len() == 0 {
        0
    } else if s[0] >= x {
        0
    } else {
        1 + lower_bound(s.drop_first(), x)
    }
}

pub proof fn lemma_lower_bound(s: Seq<usize>, x: int)
    ensures
        0 <= lower_bound(s, x) <= s.len(),
        forall|k: int| 0 <= k < lower_bound(s, x) ==> s[k] < x,
        lower_bound(s, x) < s.len() ==> s[lower_bound(s, x)] >= x,
    decreases s.len(),
{
    if s.len() == 0 {
    } else if s[0] >= x {
    } else {
        lemma_lower_bound(s.drop_first(), x);
        assert forall|k: int| 0 <= k < lower_bound(s, x) implies s[k] < x by {
            if k > 0 {
                assert(s.drop_first()[k - 1] == s[k]);
            }
        }
        if lower_bound(s, x) < s.len() {
            assert(s.drop_first()[lower_bound(s.drop_first(), x)] == s[lower_bound(s, x)]);
        }
    }
}

/// If everything before `i` is `< x` and position `i` (when it exists) is
/// `>= x`, then `i` is the lower bound.
pub proof fn lemma_lower_bound_at(s: Seq<usize>, x: int, i: int)
    requires
        0 <= i <= s.len(),
        forall|k: int| 0 <= k < i ==> s[k] < x,
        i < s.len() ==> s[i] >= x,
    ensures
        lower_bound(s, x) == i,
    decreases i,
{
    if i == 0 {
    } else {
        assert(s[0] < x);
        assert forall|k: int| 0 <= k < i - 1 implies s.drop_first()[k] < x by {
            assert(s.drop_first()[k] == s[k + 1]);
        }
        if i - 1 < s.drop_first().len() {
            assert(s.drop_first()[i - 1] == s[i]);
        }
        lemma_lower_bound_at(s.drop_first(), x, i - 1);
    }
}

/// `s` with `x` inserted at its sorted position, unless already present.
pub open spec fn insert_sorted(s: Seq<usize>, x: usize) -> Seq<usize> {
    let p = lower_bound(s, x as int);
    if p < s.len() && s[p] == x {
        s
    } else {
        s.subrange(0, p).push(x) + s.subrange(p, s.len() as int)
    }
}

pub proof fn lemma_insert_sorted(s: Seq<usize>, x: usize)
    requires
        strictly_sorted(s),
    ensures
        strictly_sorted(insert_sorted(s, x)),
        forall|y: usize| #[trigger] insert_sorted(s, x).contains(y) <==> (s.contains(y) || y == x),
{
    lemma_lower_bound(s, x as int);
    let p = lower_bound(s, x as int);
    if p < s.len() && s[p] == x {
        assert(s.contains(x));
    } else {
        let t = s.subrange(0, p).push(x) + s.subrange(p, s.len() as int);
        assert(t.len() == s.len() + 1);
        assert(forall|k: int| 0 <= k < p ==> t[k] == s[k]);
        assert(t[p] == x);
        assert(forall|k: int| p < k < t.len() ==> t[k] == s[k - 1]);
        assert(p < s.len() ==> s[p] > x);
        assert forall|i: int, j: int| 0 <= i < j < t.len() implies t[i] < t[j] by {
            if i < p && j == p {
            } else if i == p && j > p {
                assert(t[j] == s[j - 1] && s[j - 1] >= s[p] > x);
            } else if i < p && j > p {
                assert(t[i] == s[i] && t[j] == s[j - 1] && i <= j - 1);
            }
        }
        assert forall|y: usize| #[trigger] t.contains(y) implies (s.contains(y) || y == x) by {
            let k = choose|k: int| 0 <= k < t.len() && t[k] == y;
            if k < p {
                assert(s[k] == y);
            } else if k > p {
                assert(s[k - 1] == y);
            }
        }
        assert forall|y: usize| s.contains(y) || y == x implies #[trigger] t.contains(y) by {
            if s.contains(y) {
                let k = choose|k: int| 0 <= k < s.len() && s[k] == y;
                if k < p {
                    assert(t[k] == y);
                } else {
                    assert(t[k + 1] == y);
                }
            } else {
                assert(t[p] == x);
            }
        }
    }
}

/// The canonical form of a cited index set: sorted ascending, duplicates
/// removed.
pub open spec fn normalized(s: Seq<usize>) -> Seq<usize>
    decreases s.len(),
{
    if s.len() == 0 {
        Seq::empty()
    } else {
        insert_sorted(normalized(s.drop_last()), s.last())
    }
}

pub proof fn lemma_normalized(s: Seq<usize>)
    ensures
        strictly_sorted(normalized(s)),
        forall|y: usize| #[trigger] normalized(s).contains(y) <==> s.contains(y),
    decreases s.len(),
{
    if s.len() == 0 {
    } else {
        let pre = s.drop_last();
        lemma_normalized(pre);
        lemma_insert_sorted(normalized(pre), s.last());
        assert forall|y: usize| #[trigger] s.contains(y) implies (pre.contains(y) || y == s.last()) by {
            let k = choose|k: int| 0 <= k < s.len() && s[k] == y;
            if k < s.len() - 1 {
                assert(pre[k] == y);
            }
        }
        assert forall|y: usize| pre.contains(y) || y == s.last() implies #[trigger] s.contains(y) by {
            if pre.contains(y) {
                let k = choose|k: int| 0 <= k < pre.len() && pre[k] == y;
                assert(s[k] == y);
            } else {
                assert(s[s.len() - 1] == y);
            }
        }
    }
}

/// `true` when some cited index in `j` is not a declared statement, i.e.
/// is `>= n_stmt`.
pub open spec fn has_unknown(j: Seq<usize>, n_stmt: int) -> bool {
    exists|k: int| 0 <= k < j.len() && j[k] >= n_stmt
}

/// The smallest cited index in `j` that is `>= n_stmt`: the
/// deterministic representative reported when a justification cites
/// undeclared statements.
pub open spec fn first_unknown(j: Seq<usize>, n_stmt: int) -> usize {
    normalized(j)[lower_bound(normalized(j), n_stmt)]
}

/// The position of the first element of `v` that is `>= x`; `v.len()`
/// when every element is smaller.
fn lower_bound_vec(v: &Vec<usize>, x: usize) -> (p: usize)
    ensures
        p == lower_bound(v@, x as int),
{
    let mut i: usize = 0;
    loop
        invariant_except_break
            i <= v.len(),
            forall|k: int| 0 <= k < i ==> v@[k] < x,
        ensures
            i <= v.len(),
            forall|k: int| 0 <= k < i ==> v@[k] < x,
            i == v.len() || v@[i as int] >= x,
        decreases v.len() - i,
    {
        if i == v.len() {
            break ;
        }
        if v[i] >= x {
            break ;
        }
        i = i + 1;
    }
    proof {
        lemma_lower_bound_at(v@, x as int, i as int);
    }
    i
}

/// Inserts `x` into the sorted deduplicated vector `v`, keeping it
/// sorted and deduplicated.
fn insert_sorted_vec(v: &mut Vec<usize>, x: usize)
    requires
        strictly_sorted(old(v)@),
    ensures
        final(v)@ == insert_sorted(old(v)@, x),
{
    let p = lower_bound_vec(v, x);
    proof {
        lemma_lower_bound(v@, x as int);
    }
    if p < v.len() && v[p] == x {
    } else {
        v.insert(p, x);
        proof {
            assert(final(v)@ =~= old(v)@.subrange(0, p as int).push(x) + old(v)@.subrange(
                p as int,
                old(v)@.len() as int,
            ));
        }
    }
}

/// The canonical form of a justification: its cited indices sorted
/// ascending with duplicates removed.
pub fn normalize_justification(v: &Vec<usize>) -> (r: Vec<usize>)
    ensures
        r@ == normalized(v@),
        strictly_sorted(r@),
{
    let mut r: Vec<usize> = Vec::new();
    let mut i: usize = 0;
    proof {
        assert(v@.subrange(0, 0) =~= Seq::<usize>::empty());
    }
    while i < v.len()
        invariant
            i <= v.len(),
            r@ == normalized(v@.subrange(0, i as int)),
            strictly_sorted(r@),
        decreases v.len() - i,
    {
        proof {
            lemma_normalized(v@.subrange(0, i as int));
        }
        insert_sorted_vec(&mut r, v[i]);
        proof {
            let pre = v@.subrange(0, i as int);
            let cur = v@.subrange(0, i + 1 as int);
            assert(cur.drop_last() =~= pre);
            assert(cur.last() == v@[i as int]);
            lemma_normalized(cur);
        }
        i = i + 1;
    }
    proof {
        assert(v@.subrange(0, v@.len() as int) =~= v@);
    }
    r
}

/// A mutation request from the command surface, carrying its arguments.
#[derive(Clone, Debug, PartialEq, Eq)]
pub enum UpdateCmd {
    Say { sayer: String, payload: String },
    Agree { on_idx: usize, at: u64 },
    Enact { actor: String, basis: usize, justification: Vec<usize> },
    Now { now: u64 },
}

/// What a successful mutation produced: the new record's index, or
/// nothing but the clock change.
#[derive(Clone, Copy, Debug, PartialEq, Eq, Structural)]
pub enum UpdateOutcome {
    NewStatement(usize),
    NewAgreement(usize),
    NewAction(usize),
    TimeSet,
}

impl View for UpdateCmd {
    type V = OpV;

    open spec fn view(&self) -> OpV {
        match self {
            UpdateCmd::Say { sayer, payload } => OpV::Declare {
                author: sayer@,
                payload: payload@,
            },
            UpdateCmd::Agree { on_idx, at } => OpV::Bind { stmt: *on_idx, at: *at },
            UpdateCmd::Enact { actor, basis, justification } => OpV::Enact {
                actor: actor@,
                basis: *basis,
                justification: justification@,
            },
            UpdateCmd::Now { now } => OpV::SetTime { now: *now },
        }
    }
}

/// A mutation request, as the model sees it: one of the four operations
/// of the command surface.
pub enum OpV {
    Declare { author: Seq<char>, payload: Seq<char> },
    Bind { stmt: usize, at: u64 },
    Enact { actor: Seq<char>, basis: usize, justification: Seq<usize> },
    SetTime { now: u64 },
}

/// The state transition of one operation: the authoritative model of
/// `declare`, `bind`, `enact` and `set_time`.  A rejected `bind` or
/// `enact` leaves the state exactly as it was.
pub open spec fn apply_op(l: LedgerV, op: OpV) -> LedgerV {
    match op {
        OpV::Declare { author, payload } => LedgerV {
            statements: l.statements.push(
                StatementV { author, index: l.statements.len() as usize, payload },
            ),
            ..l
        },
        OpV::Bind { stmt, at } => if stmt < l.statements.len() {
            LedgerV { agreements: l.agreements.push(AgreementV { at, stmt }), ..l }
        } else {
            l
        },
        OpV::Enact { actor, basis, justification } => if basis < l.agreements.len()
            && !has_unknown(justification, l.statements.len() as int) {
            LedgerV {
                actions: l.actions.push(
                    ActionV {
                        actor,
                        label: l.actions.len() as usize,
                        basis,
                        justification: normalized(justification),
                    },
                ),
                ..l
            }
        } else {
            l
        },
        OpV::SetTime { now } => LedgerV { current: now, ..l },
    }
}

/// The state after a whole sequence of operations.
pub open spec fn apply_ops(l: LedgerV, ops: Seq<OpV>) -> LedgerV
    decreases ops.len(),
{
    if ops.len() == 0 {
        l
    } else {
        apply_ops(apply_op(l, ops[0]), ops.drop_first())
    }
}

/// How many of the operations are `declare`s.
pub open spec fn count_declares(ops: Seq<OpV>) -> int
    decreases ops.len(),
{
    if ops.len() == 0 {
        0
    } else {
        (if ops[0] is Declare {
            1int
        } else {
            0int
        }) + count_declares(ops.drop_first())
    }
}

/// Law: over any sequence of operations, the statement log grows by
/// exactly the number of `declare`s — a `declare` always succeeds and
/// appends one statement, and no other operation touches the log.
pub proof fn lemma_statement_count(l: LedgerV, ops: Seq<OpV>)
    ensures
        apply_ops(l, ops).statements.len() == l.statements.len() + count_declares(ops),
    decreases ops.len(),
{
    if ops.len() > 0 {
        lemma_statement_count(apply_op(l, ops[0]), ops.drop_first());
    }
}

/// Why a mutation was rejected; every rejection leaves the ledger
/// unchanged and the session continues.
#[derive(Clone, Copy, Debug, PartialEq, Eq, Structural)]
pub enum LedgerError {
    /// `bind` cited a statement index that has not been declared.
    UnknownStatement(usize),
    /// `enact` cited an agreement index that has not been bound.
    BasisUnknown(usize),
    /// `enact` cited a statement index that has not been declared; the
    /// smallest offending index is reported.
    JustificationUnknown(usize),
}

} // verus!
