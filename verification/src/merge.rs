//! The merger: folds the fragments attached to one field, in source order,
//! into the field's directive, or reports the first fault.
//!
//! A fragment is one key of one attribute. It speaks on one axis. The position
//! of a fragment is its index in the sequence that is merged; a conflict names
//! the position of the fragment that set the axis first and the position of the
//! one that set it again.

use vstd::prelude::*;
use syn::ExprPath;
use crate::field_attributes::{combine_all, ConflictError, DebugFormat, FieldAttributes, SkipMode};

verus! {

/// One fragment of a field's directive, as the reader of the type's
/// declaration hands it over.
#[derive(Debug, PartialEq, Eq)]
pub enum Fragment {
    /// `skip`: the field is never rendered.
    Skip,
    /// `skip_if`: the field is left out where this function says so.
    SkipIf(ExprPath),
    /// `format`: the field is rendered through this template.
    Format(String),
    /// `with`: the field is rendered by this function.
    With(ExprPath),
    /// A fragment that the reader could not make sense of: an unknown key or a
    /// malformed value.
    Invalid,
}

/// The fragments of one attribute, in source order.
#[derive(Debug, PartialEq, Eq)]
pub struct InternalFieldAttributes {
    pub keys: Vec<Fragment>,
}

/// Why a sequence of fragments does not merge into one directive.
#[derive(Debug, Clone, Copy, PartialEq, Eq, Structural)]
pub enum MergeError {
    /// The fragments at `first` and `second` both decide whether the field is
    /// left out.
    OmissionConflict { first: usize, second: usize },
    /// The fragments at `first` and `second` both decide how the field is
    /// rendered.
    RenderingConflict { first: usize, second: usize },
    /// The fragment at `position` is invalid.
    InvalidFragment { position: usize },
}

impl Fragment {
    /// The directive that the fragment amounts to by itself: what it says on
    /// its axis and the default on the other. An invalid fragment has none.
    pub open spec fn directive(self) -> Option<FieldAttributes> {
        match self {
            Fragment::Skip => Some(
                FieldAttributes { skip_mode: SkipMode::Always, debug_format: DebugFormat::Default },
            ),
            Fragment::SkipIf(condition) => Some(
                FieldAttributes {
                    skip_mode: SkipMode::Condition(condition),
                    debug_format: DebugFormat::Default,
                },
            ),
            Fragment::Format(template) => Some(
                FieldAttributes {
                    skip_mode: SkipMode::Default,
                    debug_format: DebugFormat::Format(template),
                },
            ),
            Fragment::With(renderer) => Some(
                FieldAttributes { skip_mode: SkipMode::Default, debug_format: DebugFormat::With(renderer) },
            ),
            Fragment::Invalid => None,
        }
    }

    /// Whether the fragment speaks on `axis`.
    pub open spec fn sets(self, axis: ConflictError) -> bool {
        match axis {
            ConflictError::OmissionConflict => self is Skip || self is SkipIf,
            ConflictError::RenderingConflict => self is Format || self is With,
        }
    }

    /// The directive that the fragment amounts to by itself.
    pub fn into_directive(self) -> (directive: Option<FieldAttributes>)
        ensures
            directive == self.directive(),
    {
        match self {
            Fragment::Skip => Some(
                FieldAttributes { skip_mode: SkipMode::Always, debug_format: DebugFormat::Default },
            ),
            Fragment::SkipIf(condition) => Some(
                FieldAttributes {
                    skip_mode: SkipMode::Condition(condition),
                    debug_format: DebugFormat::Default,
                },
            ),
            Fragment::Format(template) => Some(
                FieldAttributes {
                    skip_mode: SkipMode::Default,
                    debug_format: DebugFormat::Format(template),
                },
            ),
            Fragment::With(renderer) => Some(
                FieldAttributes { skip_mode: SkipMode::Default, debug_format: DebugFormat::With(renderer) },
            ),
            Fragment::Invalid => None,
        }
    }
}

impl Clone for Fragment {
    fn clone(&self) -> (copy: Self)
        ensures
            copy == *self,
    {
        match self {
            Fragment::Skip => Fragment::Skip,
            Fragment::SkipIf(condition) => Fragment::SkipIf(condition.clone()),
            Fragment::Format(template) => Fragment::Format(template.clone()),
            Fragment::With(renderer) => Fragment::With(renderer.clone()),
            Fragment::Invalid => Fragment::Invalid,
        }
    }
}

impl MergeError {
    /// The conflict on `axis` between the fragments at `first` and `second`.
    pub open spec fn between(axis: ConflictError, first: int, second: int) -> MergeError {
        match axis {
            ConflictError::OmissionConflict => MergeError::OmissionConflict {
                first: first as usize,
                second: second as usize,
            },
            ConflictError::RenderingConflict => MergeError::RenderingConflict {
                first: first as usize,
                second: second as usize,
            },
        }
    }

    /// The axis of a conflict; `None` for an invalid fragment.
    pub open spec fn axis(self) -> Option<ConflictError> {
        match self {
            MergeError::OmissionConflict { .. } => Some(ConflictError::OmissionConflict),
            MergeError::RenderingConflict { .. } => Some(ConflictError::RenderingConflict),
            MergeError::InvalidFragment { .. } => None,
        }
    }

    /// The axis of a conflict; `None` for an invalid fragment.
    pub fn conflict(&self) -> (axis: Option<ConflictError>)
        ensures
            axis == self.axis(),
    {
        match self {
            MergeError::OmissionConflict { .. } => Some(ConflictError::OmissionConflict),
            MergeError::RenderingConflict { .. } => Some(ConflictError::RenderingConflict),
            MergeError::InvalidFragment { .. } => None,
        }
    }

    /// The position of the fragment at which merging stopped.
    pub open spec fn stopped_at(self) -> usize {
        match self {
            MergeError::OmissionConflict { second, .. } => second,
            MergeError::RenderingConflict { second, .. } => second,
            MergeError::InvalidFragment { position } => position,
        }
    }
}

/// The position of the first fragment at or after `from` that speaks on
/// `axis`, or the number of fragments where there is none.
pub open spec fn first_setter(fragments: Seq<Fragment>, axis: ConflictError, from: int) -> int
    decreases fragments.len() - from,
{
    if from < 0 || from >= fragments.len() {
        fragments.len() as int
    } else if fragments[from].sets(axis) {
        from
    } else {
        first_setter(fragments, axis, from + 1)
    }
}

/// The directive that `fragments` merge into, folded from left to right.
/// Merging stops at the first fragment, in source order, that is invalid or
/// that speaks on an axis on which an earlier fragment has spoken. A conflict
/// names the fragment that spoke first and the one that spoke again.
pub open spec fn merge(fragments: Seq<Fragment>) -> Result<FieldAttributes, MergeError>
    decreases fragments.len(),
{
    if fragments.len() == 0 {
        Ok(FieldAttributes::default_attributes())
    } else {
        let position = fragments.len() - 1;
        match merge(fragments.drop_last()) {
            Err(error) => Err(error),
            Ok(combined) => match fragments.last().directive() {
                None => Err(MergeError::InvalidFragment { position: position as usize }),
                Some(directive) => match combined.combine(directive) {
                    Err(axis) => Err(MergeError::between(axis, first_setter(fragments, axis, 0), position)),
                    Ok(merged) => Ok(merged),
                },
            },
        }
    }
}

/// `first_setter` finds the least position at or after `from` that speaks on
/// the axis.
pub proof fn lemma_first_setter(fragments: Seq<Fragment>, axis: ConflictError, from: int)
    requires
        0 <= from <= fragments.len(),
    ensures
        from <= first_setter(fragments, axis, from) <= fragments.len(),
        first_setter(fragments, axis, from) < fragments.len() ==> fragments[first_setter(
            fragments,
            axis,
            from,
        )].sets(axis),
        forall|j: int| from <= j < first_setter(fragments, axis, from) ==> !fragments[j].sets(axis),
    decreases fragments.len() - from,
{
    if from < fragments.len() && !fragments[from].sets(axis) {
        lemma_first_setter(fragments, axis, from + 1);
    }
}

/// Once merging has stopped on a prefix of the fragments, it has stopped on
/// all of them, with the same error.
pub proof fn lemma_merge_error_persists(fragments: Seq<Fragment>, prefix: int)
    requires
        0 <= prefix <= fragments.len(),
        merge(fragments.take(prefix)) is Err,
    ensures
        merge(fragments) == merge(fragments.take(prefix)),
    decreases fragments.len(),
{
    if prefix < fragments.len() {
        assert(fragments.drop_last().take(prefix) =~= fragments.take(prefix));
        lemma_merge_error_persists(fragments.drop_last(), prefix);
    } else {
        assert(fragments.take(prefix) =~= fragments);
    }
}

/// Whether the fragments merge: every fragment is valid, and on each axis at
/// most one fragment speaks.
pub open spec fn mergeable(fragments: Seq<Fragment>) -> bool {
    &&& forall|i: int| 0 <= i < fragments.len() ==> !(#[trigger] fragments[i] is Invalid)
    &&& forall|axis: ConflictError, i: int, j: int|
        0 <= i < j < fragments.len() ==> !(#[trigger] fragments[i].sets(axis) && #[trigger] fragments[j].sets(
            axis,
        ))
}

/// Whether `attributes` holds, on each axis, what the one fragment that
/// speaks on the axis says, and the default where no fragment speaks on it.
pub open spec fn gathers(fragments: Seq<Fragment>, attributes: FieldAttributes) -> bool {
    &&& attributes.skip_mode is Default <==> forall|i: int|
        0 <= i < fragments.len() ==> !(#[trigger] fragments[i]).sets(ConflictError::OmissionConflict)
    &&& attributes.debug_format is Default <==> forall|i: int|
        0 <= i < fragments.len() ==> !(#[trigger] fragments[i]).sets(ConflictError::RenderingConflict)
    &&& forall|i: int|
        0 <= i < fragments.len() && (#[trigger] fragments[i]).sets(ConflictError::OmissionConflict)
            ==> fragments[i].directive()->Some_0.skip_mode == attributes.skip_mode
    &&& forall|i: int|
        0 <= i < fragments.len() && (#[trigger] fragments[i]).sets(ConflictError::RenderingConflict)
            ==> fragments[i].directive()->Some_0.debug_format == attributes.debug_format
}

/// Whether `error` is what merging reports for `fragments`: the fragments
/// before the one at which merging stops merge, and that one is invalid or
/// speaks on an axis on which the fragment at `first`, before it, has spoken.
pub open spec fn reports(fragments: Seq<Fragment>, error: MergeError) -> bool {
    let stop = error.stopped_at() as int;
    &&& 0 <= stop < fragments.len()
    &&& mergeable(fragments.take(stop))
    &&& match error {
        MergeError::InvalidFragment { .. } => fragments[stop] is Invalid,
        MergeError::OmissionConflict { first, .. } => {
            &&& first < stop
            &&& fragments[first as int].sets(ConflictError::OmissionConflict)
            &&& fragments[stop].sets(ConflictError::OmissionConflict)
        },
        MergeError::RenderingConflict { first, .. } => {
            &&& first < stop
            &&& fragments[first as int].sets(ConflictError::RenderingConflict)
            &&& fragments[stop].sets(ConflictError::RenderingConflict)
        },
    }
}

/// Merging succeeds exactly where the fragments are mergeable, and then
/// gathers on each axis what the one fragment that speaks on it says. Where it
/// fails, the error names the first fragment, in source order, at which the
/// fragments up to it are no longer mergeable, and for a conflict the earlier
/// fragment that it conflicts with.
pub proof fn lemma_merge_outcome(fragments: Seq<Fragment>)
    requires
        fragments.len() <= usize::MAX,
    ensures
        merge(fragments) is Ok <==> mergeable(fragments),
        match merge(fragments) {
            Ok(attributes) => gathers(fragments, attributes),
            Err(error) => reports(fragments, error),
        },
    decreases fragments.len(),
{
    if fragments.len() > 0 {
        let before = fragments.drop_last();
        let last = fragments.len() - 1;
        lemma_merge_outcome(before);
        assert(forall|i: int| 0 <= i < last ==> before[i] == fragments[i]);
        match merge(before) {
            Err(error) => {
                let stop = error.stopped_at() as int;
                assert(fragments.take(stop) =~= before.take(stop));
                if mergeable(fragments) {
                    assert(mergeable(before));
                }
            },
            Ok(combined) => {
                assert(fragments.take(last) =~= before);
                match fragments.last().directive() {
                    None => {
                        assert(fragments[last] is Invalid);
                    },
                    Some(directive) => match combined.combine(directive) {
                        Err(axis) => {
                            lemma_first_setter(fragments, axis, 0);
                            let first = first_setter(fragments, axis, 0);
                            assert(fragments[last].sets(axis));
                            assert(first < last) by {
                                let earlier = choose|i: int| 0 <= i < before.len() && before[i].sets(axis);
                                assert(fragments[earlier].sets(axis));
                            }
                            assert(fragments[first].sets(axis) && fragments[last].sets(axis));
                        },
                        Ok(merged) => {
                            assert forall|axis: ConflictError, i: int, j: int|
                                0 <= i < j < fragments.len() implies !(#[trigger] fragments[i].sets(axis)
                                && #[trigger] fragments[j].sets(axis)) by {
                                if j == last && fragments[j].sets(axis) {
                                    assert(!before[i].sets(axis));
                                } else if j < last {
                                    assert(!(before[i].sets(axis) && before[j].sets(axis)));
                                }
                            }
                            assert(gathers(fragments, merged));
                        },
                    },
                }
            },
        }
    }
}

/// Merging fragments is folding their directives: where every fragment is
/// valid, merging gives what combining the directives of the fragments from
/// left to right gives, and fails on the axis on which that fails.
pub proof fn lemma_merge_is_fold(fragments: Seq<Fragment>, directives: Seq<FieldAttributes>)
    requires
        directives.len() == fragments.len(),
        forall|i: int|
            0 <= i < fragments.len() ==> (#[trigger] fragments[i]).directive() == Some(directives[i]),
    ensures
        match combine_all(directives) {
            Ok(combined) => merge(fragments) == Ok::<FieldAttributes, MergeError>(combined),
            Err(axis) => merge(fragments) is Err && merge(fragments)->Err_0.axis() == Some(axis),
        },
    decreases fragments.len(),
{
    if fragments.len() > 0 {
        lemma_merge_is_fold(fragments.drop_last(), directives.drop_last());
        assert(fragments.last() == fragments[fragments.len() - 1]);
    }
}

/// The position at which `first_setter` arrives is the one that speaks on
/// the axis with none before it doing so.
pub proof fn lemma_first_setter_is(fragments: Seq<Fragment>, axis: ConflictError, position: int)
    requires
        0 <= position < fragments.len(),
        fragments[position].sets(axis),
        forall|j: int| 0 <= j < position ==> !fragments[j].sets(axis),
    ensures
        first_setter(fragments, axis, 0) == position,
{
    lemma_first_setter(fragments, axis, 0);
}

/// Whether `origin` is the position below `bound` at which a fragment spoke
/// on `axis` first, when `set` says that one did, and no fragment below
/// `bound` speaks on it otherwise.
spec fn tracks(fragments: Seq<Fragment>, axis: ConflictError, bound: int, set: bool, origin: int) -> bool {
    if set {
        &&& 0 <= origin < bound
        &&& fragments[origin].sets(axis)
        &&& forall|j: int| 0 <= j < origin ==> !fragments[j].sets(axis)
    } else {
        forall|j: int| 0 <= j < bound ==> !fragments[j].sets(axis)
    }
}

/// What merging has gathered from the fragments before `next`: the directive
/// so far, and for each axis the position of the fragment that spoke on it.
struct Merging {
    combined: FieldAttributes,
    skip_from: usize,
    format_from: usize,
    next: usize,
}

impl Merging {
    /// Whether this is what merging has gathered from the first `next` of
    /// `fragments`.
    spec fn covers(self, fragments: Seq<Fragment>) -> bool {
        &&& self.next <= fragments.len()
        &&& merge(fragments.take(self.next as int)) == Ok::<FieldAttributes, MergeError>(self.combined)
        &&& tracks(
            fragments,
            ConflictError::OmissionConflict,
            self.next as int,
            !(self.combined.skip_mode is Default),
            self.skip_from as int,
        )
        &&& tracks(
            fragments,
            ConflictError::RenderingConflict,
            self.next as int,
            !(self.combined.debug_format is Default),
            self.format_from as int,
        )
    }

    /// Merging before any fragment.
    fn start(Ghost(fragments): Ghost<Seq<Fragment>>) -> (merging: Merging)
        ensures
            merging.next == 0,
            merging.covers(fragments),
    {
        proof {
            assert(fragments.take(0) =~= Seq::<Fragment>::empty());
        }
        Merging { combined: FieldAttributes::default(), skip_from: 0, format_from: 0, next: 0 }
    }

    /// Takes in the fragment at position `next`.
    fn absorb(self, fragment: Fragment, Ghost(fragments): Ghost<Seq<Fragment>>) -> (outcome: Result<
        Merging,
        MergeError,
    >)
        requires
            self.covers(fragments),
            self.next < fragments.len() <= usize::MAX,
            fragments[self.next as int] == fragment,
        ensures
            match outcome {
                Ok(merging) => merging.next == self.next + 1 && merging.covers(fragments),
                Err(error) => merge(fragments) == Err::<FieldAttributes, MergeError>(error),
            },
    {
        let Merging { combined, skip_from, format_from, next } = self;
        let ghost prefix = fragments.take(next + 1);
        proof {
            assert(prefix.drop_last() =~= fragments.take(next as int));
            assert(prefix.last() == fragment);
            assert(forall|j: int| 0 <= j <= next ==> prefix[j] == fragments[j]);
            if !(combined.skip_mode is Default) {
                lemma_first_setter_is(prefix, ConflictError::OmissionConflict, skip_from as int);
            }
            if !(combined.debug_format is Default) {
                lemma_first_setter_is(prefix, ConflictError::RenderingConflict, format_from as int);
            }
        }
        let outcome = match fragment.into_directive() {
            None => Err(MergeError::InvalidFragment { position: next }),
            Some(directive) => {
                let sets_skip = !directive.skip_mode.is_default();
                let sets_format = !directive.debug_format.is_default();
                match combined.try_combine(directive) {
                    Err(ConflictError::OmissionConflict) => Err(
                        MergeError::OmissionConflict { first: skip_from, second: next },
                    ),
                    Err(ConflictError::RenderingConflict) => Err(
                        MergeError::RenderingConflict { first: format_from, second: next },
                    ),
                    Ok(combined) => Ok(
                        Merging {
                            combined,
                            skip_from: if sets_skip {
                                next
                            } else {
                                skip_from
                            },
                            format_from: if sets_format {
                                next
                            } else {
                                format_from
                            },
                            next: next + 1,
                        },
                    ),
                }
            },
        };
        proof {
            if outcome is Err {
                assert(merge(prefix) == Err::<FieldAttributes, MergeError>(outcome->Err_0));
                lemma_merge_error_persists(fragments, next + 1);
            }
        }
        outcome
    }
}

impl FieldAttributes {
    /// Builds the directive that the fragments of one attribute amount to,
    /// taken in source order. Positions in the error count from the first
    /// fragment of the attribute.
    pub fn new(internal: InternalFieldAttributes) -> (attributes: Result<Self, MergeError>)
        ensures
            attributes == merge(internal.keys@),
    {
        let ghost all = internal.keys@;
        let total = internal.keys.len();
        let mut merging = Merging::start(Ghost(all));
        for fragment in it: internal.keys.into_iter()
            invariant
                it.seq() == all,
                all == internal.keys@,
                all.len() == total,
                merging.next == it.index(),
                merging.covers(all),
        {
            match merging.absorb(fragment, Ghost(all)) {
                Err(error) => {
                    return Err(error);
                },
                Ok(next) => {
                    merging = next;
                },
            }
        }
        proof {
            assert(all.take(all.len() as int) =~= all);
        }
        Ok(merging.combined)
    }
}

/// Merges the fragments of one field, in source order, into its directive.
/// Positions in the error count from the first fragment of the field.
pub fn parse_field_attributes(fragments: &Vec<Fragment>) -> (merged: Result<FieldAttributes, MergeError>)
    ensures
        merged == merge(fragments@),
{
    let mut merging = Merging::start(Ghost(fragments@));
    let mut position: usize = 0;
    while position < fragments.len()
        invariant
            position == merging.next,
            merging.covers(fragments@),
        decreases fragments.len() - position,
    {
        match merging.absorb(fragments[position].clone(), Ghost(fragments@)) {
            Err(error) => {
                return Err(error);
            },
            Ok(next) => {
                merging = next;
            },
        }
        position += 1;
    }
    proof {
        assert(fragments@.take(position as int) =~= fragments@);
    }
    Ok(merging.combined)
}

} // verus!
