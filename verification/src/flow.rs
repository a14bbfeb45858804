//! Pending control transfers and the flow that leaves a statement.

use vstd::prelude::*;
use crate::exception_types::ExceptionTypeFact;
use crate::graph::{BlockId, EdgeKind};
use crate::syntax::opt_text;
use crate::text::{lower_text, lowercase, same_text};

verus! {

/// The kind of abrupt completion.
#[derive(Debug, Clone, Copy, PartialEq, Eq, Structural, Hash)]
pub enum TransferKind {
    Exit,
    Break,
    Continue,
    Goto,
    Exception,
}

/// A control transfer that has not yet been routed through the enclosing cleanup
/// scopes.
#[derive(Debug)]
pub struct PendingTransfer {
    pub source: BlockId,
    pub kind: TransferKind,
    /// The block that a `break` or `continue` goes to.
    pub target: Option<BlockId>,
    /// The label that a `goto` names.
    pub target_label: Option<String>,
    /// The namespace in which that label is looked up.
    pub target_label_binding: Option<usize>,
    /// The cleanup scopes that hold the target.
    pub target_scopes: Vec<usize>,
    /// Whether the transfer has passed through a finalizer.
    pub from_finally: bool,
    pub exception_fact: Option<ExceptionTypeFact>,
    /// The class written in the `raise` statement.
    pub exception_type: Option<String>,
}

/// The mathematical value of a [`PendingTransfer`].
#[verifier::ext_equal]
pub struct TransferModel {
    pub source: BlockId,
    pub kind: TransferKind,
    pub target: Option<BlockId>,
    pub label: Option<Seq<char>>,
    pub binding: Option<usize>,
    pub scopes: Seq<usize>,
    pub from_finally: bool,
    pub fact: Option<ExceptionTypeFact>,
    pub written: Option<Seq<char>>,
}

/// What follows a finalizer: a transfer without the block that it comes from.
#[derive(Debug)]
pub struct ContinuationKey {
    pub kind: TransferKind,
    pub target: Option<BlockId>,
    pub target_label: Option<String>,
    pub target_label_binding: Option<usize>,
    pub target_scopes: Vec<usize>,
    pub exception_fact: Option<ExceptionTypeFact>,
    pub exception_type: Option<String>,
}

/// The mathematical value of a [`ContinuationKey`].
#[verifier::ext_equal]
pub struct KeyModel {
    pub kind: TransferKind,
    pub target: Option<BlockId>,
    pub label: Option<Seq<char>>,
    pub binding: Option<usize>,
    pub scopes: Seq<usize>,
    pub fact: Option<ExceptionTypeFact>,
    pub written: Option<Seq<char>>,
}

/// What leaves a statement: its normal end, if it has one, and its transfers.
#[derive(Debug)]
pub struct Flow {
    pub normal: Option<BlockId>,
    pub transfers: Vec<PendingTransfer>,
}

/// The mathematical value of a [`Flow`].
#[verifier::ext_equal]
pub struct FlowModel {
    pub normal: Option<BlockId>,
    pub transfers: Seq<TransferModel>,
}

impl View for PendingTransfer {
    type V = TransferModel;

    open spec fn view(&self) -> TransferModel {
        TransferModel {
            source: self.source,
            kind: self.kind,
            target: self.target,
            label: opt_text(self.target_label),
            binding: self.target_label_binding,
            scopes: self.target_scopes@,
            from_finally: self.from_finally,
            fact: self.exception_fact,
            written: opt_text(self.exception_type),
        }
    }
}

impl View for ContinuationKey {
    type V = KeyModel;

    open spec fn view(&self) -> KeyModel {
        KeyModel {
            kind: self.kind,
            target: self.target,
            label: opt_text(self.target_label),
            binding: self.target_label_binding,
            scopes: self.target_scopes@,
            fact: self.exception_fact,
            written: opt_text(self.exception_type),
        }
    }
}

/// The mathematical values of several transfers.
pub open spec fn transfer_models(v: Seq<PendingTransfer>) -> Seq<TransferModel> {
    v.map_values(|t: PendingTransfer| t@)
}

impl View for Flow {
    type V = FlowModel;

    open spec fn view(&self) -> FlowModel {
        FlowModel { normal: self.normal, transfers: transfer_models(self.transfers@) }
    }
}

/// The value of an optional continuation key.
pub open spec fn opt_key(k: Option<ContinuationKey>) -> Option<KeyModel> {
    match k {
        Some(key) => Some(key@),
        None => None,
    }
}

// Constructors -------------------------------------------------------------------------

/// A transfer of a kind without a target.
pub open spec fn plain_transfer(source: BlockId, kind: TransferKind) -> TransferModel {
    TransferModel {
        source,
        kind,
        target: None,
        label: None,
        binding: None,
        scopes: Seq::empty(),
        from_finally: false,
        fact: None,
        written: None,
    }
}

/// The transfer of an `Exit`.
pub open spec fn exit_transfer(source: BlockId) -> TransferModel {
    plain_transfer(source, TransferKind::Exit)
}

/// The transfer of a `break` or `continue`.
pub open spec fn loop_transfer(
    source: BlockId,
    kind: TransferKind,
    target: BlockId,
    scopes: Seq<usize>,
) -> TransferModel {
    TransferModel { target: Some(target), scopes, ..plain_transfer(source, kind) }
}

/// The transfer of an exception.
pub open spec fn exception_transfer(
    source: BlockId,
    fact: ExceptionTypeFact,
    written: Option<Seq<char>>,
) -> TransferModel {
    TransferModel {
        fact: Some(fact),
        written,
        ..plain_transfer(source, TransferKind::Exception)
    }
}

/// The transfer of an exception of which nothing is known.
pub open spec fn unknown_exception(source: BlockId) -> TransferModel {
    exception_transfer(source, ExceptionTypeFact::Unknown, None)
}

/// The transfer of a `goto`.
pub open spec fn goto_transfer(
    source: BlockId,
    label: Seq<char>,
    binding: usize,
    scopes: Seq<usize>,
) -> TransferModel {
    TransferModel {
        label: Some(label),
        binding: Some(binding),
        scopes,
        ..plain_transfer(source, TransferKind::Goto)
    }
}

impl TransferModel {
    /// Whether the target lies outside a cleanup scope, so that the transfer
    /// passes through its finalizer.
    pub open spec fn leaves(self, scope: usize) -> bool {
        match self.kind {
            TransferKind::Exception => true,
            TransferKind::Exit => true,
            _ => !self.scopes.contains(scope),
        }
    }

    /// The same transfer, coming out of a finalizer at a block.
    pub open spec fn from_finalizer(self, source: BlockId) -> TransferModel {
        TransferModel { source, from_finally: true, ..self }
    }

    /// What follows a finalizer that this transfer passes through.
    pub open spec fn key(self) -> KeyModel {
        KeyModel {
            kind: self.kind,
            target: self.target,
            label: match self.label {
                Some(label) => Some(lower_text(label)),
                None => None,
            },
            binding: self.binding,
            scopes: self.scopes,
            fact: self.fact,
            written: match self.written {
                Some(written) => Some(lower_text(written)),
                None => None,
            },
        }
    }

    /// The kind of the edge that completes the transfer.
    pub open spec fn completion(self) -> EdgeKind {
        if self.from_finally {
            EdgeKind::FinallyExit
        } else if self.kind == TransferKind::Goto {
            EdgeKind::Goto
        } else {
            EdgeKind::Normal
        }
    }
}

/// The list without its repetitions, each transfer at its first place.
pub open spec fn distinct(s: Seq<TransferModel>) -> Seq<TransferModel>
    decreases s.len(),
{
    if s.len() == 0 {
        Seq::empty()
    } else {
        let before = distinct(s.drop_last());
        if before.contains(s.last()) {
            before
        } else {
            before.push(s.last())
        }
    }
}

// Copies and comparisons -----------------------------------------------------------------

/// A copy of a list of numbers.
pub fn copy_ids(v: &Vec<usize>) -> (r: Vec<usize>)
    ensures
        r@ == v@,
{
    let mut out: Vec<usize> = Vec::new();
    let mut i: usize = 0;
    while i < v.len()
        invariant
            i <= v@.len(),
            out@ == v@.take(i as int),
        decreases v@.len() - i,
    {
        out.push(v[i]);
        i = i + 1;
        assert(v@.take(i as int) =~= v@.take(i as int - 1).push(v@[i as int - 1]));
    }
    assert(v@.take(i as int) =~= v@);
    out
}

/// Whether two lists of numbers are equal.
pub fn same_ids(a: &Vec<usize>, b: &Vec<usize>) -> (r: bool)
    ensures
        r == (a@ == b@),
{
    if a.len() != b.len() {
        return false;
    }
    let mut i: usize = 0;
    while i < a.len()
        invariant
            a@.len() == b@.len(),
            i <= a@.len(),
            forall|k: int| 0 <= k < i ==> a@[k] == b@[k],
        decreases a@.len() - i,
    {
        if a[i] != b[i] {
            return false;
        }
        i = i + 1;
    }
    assert(a@ =~= b@);
    true
}

/// Whether a list of numbers holds a number.
pub fn has_id(v: &Vec<usize>, x: usize) -> (r: bool)
    ensures
        r == v@.contains(x),
{
    let mut i: usize = 0;
    while i < v.len()
        invariant
            i <= v@.len(),
            forall|k: int| 0 <= k < i ==> v@[k] != x,
        decreases v@.len() - i,
    {
        if v[i] == x {
            return true;
        }
        i = i + 1;
    }
    false
}

/// A copy of a list of facts.
pub fn copy_facts(v: &Vec<ExceptionTypeFact>) -> (r: Vec<ExceptionTypeFact>)
    ensures
        r@ == v@,
{
    let mut out: Vec<ExceptionTypeFact> = Vec::new();
    let mut i: usize = 0;
    while i < v.len()
        invariant
            i <= v@.len(),
            out@ == v@.take(i as int),
        decreases v@.len() - i,
    {
        out.push(v[i]);
        i = i + 1;
        assert(v@.take(i as int) =~= v@.take(i as int - 1).push(v@[i as int - 1]));
    }
    assert(v@.take(i as int) =~= v@);
    out
}

/// Whether two lists of facts are equal.
pub fn same_facts(a: &Vec<ExceptionTypeFact>, b: &Vec<ExceptionTypeFact>) -> (r: bool)
    ensures
        r == (a@ == b@),
{
    if a.len() != b.len() {
        return false;
    }
    let mut i: usize = 0;
    while i < a.len()
        invariant
            a@.len() == b@.len(),
            i <= a@.len(),
            forall|k: int| 0 <= k < i ==> a@[k] == b@[k],
        decreases a@.len() - i,
    {
        if a[i] != b[i] {
            return false;
        }
        i = i + 1;
    }
    assert(a@ =~= b@);
    true
}

/// A copy of an optional text.
pub fn copy_opt(o: &Option<String>) -> (r: Option<String>)
    ensures
        opt_text(r) == opt_text(*o),
{
    match o {
        Some(s) => Some(s.clone()),
        None => None,
    }
}

fn lower_opt(o: &Option<String>) -> (r: Option<String>)
    ensures
        opt_text(r) == (match opt_text(*o) {
            Some(s) => Some(lower_text(s)),
            None => None,
        }),
{
    match o {
        Some(s) => Some(lowercase(s.as_str())),
        None => None,
    }
}

/// Whether two optional texts are equal.
pub fn same_opt(a: &Option<String>, b: &Option<String>) -> (r: bool)
    ensures
        r == (opt_text(*a) == opt_text(*b)),
{
    match (a, b) {
        (Some(x), Some(y)) => same_text(x.as_str(), y.as_str()),
        (None, None) => true,
        _ => false,
    }
}

impl PendingTransfer {
    fn plain(source: BlockId, kind: TransferKind) -> (r: PendingTransfer)
        ensures
            r@ == plain_transfer(source, kind),
    {
        let r = PendingTransfer {
            source,
            kind,
            target: None,
            target_label: None,
            target_label_binding: None,
            target_scopes: Vec::new(),
            from_finally: false,
            exception_fact: None,
            exception_type: None,
        };
        assert(r@ =~= plain_transfer(source, kind));
        r
    }

    /// The transfer of an `Exit`.
    pub fn exit(source: BlockId) -> (r: PendingTransfer)
        ensures
            r@ == exit_transfer(source),
    {
        Self::plain(source, TransferKind::Exit)
    }

    /// The transfer of a `break` or `continue`.
    pub fn block_target(
        source: BlockId,
        kind: TransferKind,
        target: BlockId,
        target_scopes: Vec<usize>,
    ) -> (r: PendingTransfer)
        ensures
            r@ == loop_transfer(source, kind, target, target_scopes@),
    {
        let mut r = Self::plain(source, kind);
        r.target = Some(target);
        r.target_scopes = target_scopes;
        assert(r@ =~= loop_transfer(source, kind, target, target_scopes@));
        r
    }

    /// The transfer of an exception of which nothing is known.
    pub fn exception(source: BlockId) -> (r: PendingTransfer)
        ensures
            r@ == unknown_exception(source),
    {
        Self::exception_with_fact(source, ExceptionTypeFact::Unknown, None)
    }

    /// The transfer of an exception.
    pub fn exception_with_fact(
        source: BlockId,
        fact: ExceptionTypeFact,
        exception_type: Option<String>,
    ) -> (r: PendingTransfer)
        ensures
            r@ == exception_transfer(source, fact, opt_text(exception_type)),
    {
        let mut r = Self::plain(source, TransferKind::Exception);
        r.exception_fact = Some(fact);
        r.exception_type = exception_type;
        assert(r@ =~= exception_transfer(source, fact, opt_text(exception_type)));
        r
    }

    /// The transfer of a `goto`.
    pub fn goto(source: BlockId, label: String, binding: usize, target_scopes: Vec<usize>) -> (r:
        PendingTransfer)
        ensures
            r@ == goto_transfer(source, label@, binding, target_scopes@),
    {
        let mut r = Self::plain(source, TransferKind::Goto);
        r.target_label = Some(label);
        r.target_label_binding = Some(binding);
        r.target_scopes = target_scopes;
        assert(r@ =~= goto_transfer(source, label@, binding, target_scopes@));
        r
    }

    /// Whether the target lies outside a cleanup scope.
    pub fn leaves_scope(&self, scope: usize) -> (r: bool)
        ensures
            r == self@.leaves(scope),
    {
        match self.kind {
            TransferKind::Exception => true,
            TransferKind::Exit => true,
            _ => !has_id(&self.target_scopes, scope),
        }
    }

    /// The same transfer, coming out of a finalizer at a block.
    pub fn with_source(&self, source: BlockId) -> (r: PendingTransfer)
        ensures
            r@ == self@.from_finalizer(source),
    {
        let mut r = self.copy();
        r.source = source;
        r.from_finally = true;
        assert(r@ =~= self@.from_finalizer(source));
        r
    }

    /// A copy of the transfer.
    pub fn copy(&self) -> (r: PendingTransfer)
        ensures
            r@ == self@,
    {
        let r = PendingTransfer {
            source: self.source,
            kind: self.kind,
            target: self.target,
            target_label: copy_opt(&self.target_label),
            target_label_binding: self.target_label_binding,
            target_scopes: copy_ids(&self.target_scopes),
            from_finally: self.from_finally,
            exception_fact: self.exception_fact,
            exception_type: copy_opt(&self.exception_type),
        };
        assert(r@ =~= self@);
        r
    }

    /// What follows a finalizer that this transfer passes through.
    pub fn key(&self) -> (r: ContinuationKey)
        ensures
            r@ == self@.key(),
    {
        let r = ContinuationKey {
            kind: self.kind,
            target: self.target,
            target_label: lower_opt(&self.target_label),
            target_label_binding: self.target_label_binding,
            target_scopes: copy_ids(&self.target_scopes),
            exception_fact: self.exception_fact,
            exception_type: lower_opt(&self.exception_type),
        };
        assert(r@ =~= self@.key());
        r
    }

    /// The kind of the edge that completes the transfer.
    pub fn completion_edge(&self) -> (r: EdgeKind)
        ensures
            r == self@.completion(),
    {
        if self.from_finally {
            EdgeKind::FinallyExit
        } else if self.kind == TransferKind::Goto {
            EdgeKind::Goto
        } else {
            EdgeKind::Normal
        }
    }

    fn same(&self, other: &PendingTransfer) -> (r: bool)
        ensures
            r == (self@ == other@),
    {
        let r = self.source == other.source && self.kind == other.kind && self.target
            == other.target && self.target_label_binding == other.target_label_binding
            && self.from_finally == other.from_finally && self.exception_fact
            == other.exception_fact && same_opt(&self.target_label, &other.target_label)
            && same_opt(&self.exception_type, &other.exception_type) && same_ids(
            &self.target_scopes,
            &other.target_scopes,
        );
        assert(r ==> self@ =~= other@);
        r
    }
}

impl ContinuationKey {
    /// A copy of the key.
    pub fn copy(&self) -> (r: ContinuationKey)
        ensures
            r@ == self@,
    {
        let r = ContinuationKey {
            kind: self.kind,
            target: self.target,
            target_label: copy_opt(&self.target_label),
            target_label_binding: self.target_label_binding,
            target_scopes: copy_ids(&self.target_scopes),
            exception_fact: self.exception_fact,
            exception_type: copy_opt(&self.exception_type),
        };
        assert(r@ =~= self@);
        r
    }

    fn same(&self, other: &ContinuationKey) -> (r: bool)
        ensures
            r == (self@ == other@),
    {
        let r = self.kind == other.kind && self.target == other.target && self.target_label_binding
            == other.target_label_binding && self.exception_fact == other.exception_fact
            && same_opt(&self.target_label, &other.target_label) && same_opt(
            &self.exception_type,
            &other.exception_type,
        ) && same_ids(&self.target_scopes, &other.target_scopes);
        assert(r ==> self@ =~= other@);
        r
    }
}

/// A copy of an optional key.
pub fn copy_key(k: &Option<ContinuationKey>) -> (r: Option<ContinuationKey>)
    ensures
        opt_key(r) == opt_key(*k),
{
    match k {
        Some(key) => Some(key.copy()),
        None => None,
    }
}

/// Whether two optional keys are equal.
pub fn same_key(a: &Option<ContinuationKey>, b: &Option<ContinuationKey>) -> (r: bool)
    ensures
        r == (opt_key(*a) == opt_key(*b)),
{
    match (a, b) {
        (Some(x), Some(y)) => x.same(y),
        (None, None) => true,
        _ => false,
    }
}

/// The list without its repetitions.
pub fn dedup_transfers(v: &Vec<PendingTransfer>) -> (r: Vec<PendingTransfer>)
    ensures
        transfer_models(r@) == distinct(transfer_models(v@)),
{
    let ghost all = transfer_models(v@);
    let mut out: Vec<PendingTransfer> = Vec::new();
    let mut i: usize = 0;
    assert(transfer_models(out@) =~= distinct(all.take(0)));
    while i < v.len()
        invariant
            i <= v@.len(),
            all == transfer_models(v@),
            all.len() == v@.len(),
            transfer_models(out@) == distinct(all.take(i as int)),
        decreases v@.len() - i,
    {
        let t = &v[i];
        assert(all[i as int] == t@);
        assert(all.take(i as int + 1).drop_last() =~= all.take(i as int));
        let mut known: bool = false;
        let mut k: usize = 0;
        while k < out.len() && !known
            invariant
                k <= out@.len(),
                known == exists|j: int| 0 <= j < k && transfer_models(out@)[j] == t@,
            decreases out@.len() - k + if known { 0int } else { 1int },
        {
            assert(transfer_models(out@)[k as int] == out@[k as int]@);
            if out[k].same(t) {
                known = true;
            }
            k = k + 1;
        }
        assert(known == transfer_models(out@).contains(t@)) by {
            assert(transfer_models(out@).len() == out@.len());
        }
        if !known {
            let ghost before = out@;
            out.push(t.copy());
            assert(transfer_models(out@) =~= transfer_models(before).push(t@));
        }
        i = i + 1;
    }
    assert(all.take(i as int) =~= all);
    out
}

/// Moves the transfers of a list to the end of another.
pub fn append_transfers(to: &mut Vec<PendingTransfer>, from: Vec<PendingTransfer>)
    ensures
        transfer_models(final(to)@) == transfer_models(old(to)@) + transfer_models(from@),
{
    let mut rest = from;
    to.append(&mut rest);
    assert(transfer_models(to@) =~= transfer_models(old(to)@) + transfer_models(from@));
}

/// Puts a transfer at the end of a list.
pub fn push_transfer(to: &mut Vec<PendingTransfer>, transfer: PendingTransfer)
    ensures
        transfer_models(final(to)@) == transfer_models(old(to)@).push(transfer@),
{
    to.push(transfer);
    assert(transfer_models(to@) =~= transfer_models(old(to)@).push(transfer@));
}

impl Flow {
    /// A flow that ends at a block.
    pub fn ending(block: BlockId) -> (r: Flow)
        ensures
            r@ == (FlowModel { normal: Some(block), transfers: Seq::empty() }),
    {
        let r = Flow { normal: Some(block), transfers: Vec::new() };
        assert(r@.transfers =~= Seq::<TransferModel>::empty());
        r
    }

    /// A flow that only leaves by a transfer.
    pub fn leaving(transfer: PendingTransfer) -> (r: Flow)
        ensures
            r@ == (FlowModel { normal: None, transfers: seq![transfer@] }),
    {
        let mut transfers: Vec<PendingTransfer> = Vec::new();
        transfers.push(transfer);
        let r = Flow { normal: None, transfers };
        assert(r@.transfers =~= seq![transfer@]);
        r
    }

    /// A copy of the flow.
    pub fn copy(&self) -> (r: Flow)
        ensures
            r@ == self@,
    {
        let mut transfers: Vec<PendingTransfer> = Vec::new();
        let mut i: usize = 0;
        while i < self.transfers.len()
            invariant
                i <= self.transfers@.len(),
                transfer_models(transfers@) == transfer_models(self.transfers@).take(i as int),
            decreases self.transfers@.len() - i,
        {
            push_transfer(&mut transfers, self.transfers[i].copy());
            i = i + 1;
            assert(transfer_models(self.transfers@).take(i as int) =~= transfer_models(
                self.transfers@,
            ).take(i as int - 1).push(self.transfers@[i as int - 1]@));
        }
        assert(transfer_models(self.transfers@).take(i as int) =~= transfer_models(
            self.transfers@,
        ));
        Flow { normal: self.normal, transfers }
    }
}

} // verus!
