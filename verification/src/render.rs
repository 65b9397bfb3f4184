//! Executing a plan: the calls that rendering one value makes on the
//! renderer.
//!
//! Rendering a value opens a record under the label of the value's variant,
//! adds one entry for each action of that variant's plan, in order, and
//! finishes the record. An action with a condition asks the condition first
//! and adds no entry where it holds.

use vstd::prelude::*;
use syn::ExprPath;
use crate::field_attributes::{DebugFormat, FieldAttributes};
use crate::merge::MergeError;
use crate::plan::{
    lemma_default_directives_give_plain_plan, plain_action, style_of, FieldAction, FieldRef, FieldShape,
    RecordStyle, VariantPlan, VariantPlanView, VariantShape,
};

verus! {

/// One call on the renderer.
#[derive(Debug, PartialEq, Eq)]
pub enum SinkCall {
    /// Opens a record with this name and style.
    BeginRecord { label: String, style: RecordStyle },
    /// Adds the entry of `field` to the open record. By default the field's
    /// value renders itself; with a template the value is substituted into
    /// it; with a function the entry is an adapter that hands the value and
    /// the sink to that function.
    AddField { field: FieldRef, format: DebugFormat },
    /// Finishes the record and gives its result.
    Finish,
}

/// How far the rendering of one value has come.
#[derive(Debug, Clone, Copy, PartialEq, Eq, Structural)]
pub enum RenderState {
    /// No call has been made.
    NotStarted,
    /// The record is open and has no entry yet.
    RecordOpened,
    /// The record is open and has at least one entry.
    FieldAppended,
    /// The record is finished.
    Finished,
}

impl Clone for SinkCall {
    fn clone(&self) -> (copy: Self)
        ensures
            copy == *self,
    {
        match self {
            SinkCall::BeginRecord { label, style } => SinkCall::BeginRecord {
                label: label.clone(),
                style: *style,
            },
            SinkCall::AddField { field, format } => SinkCall::AddField {
                field: field.clone(),
                format: format.clone(),
            },
            SinkCall::Finish => SinkCall::Finish,
        }
    }
}

impl FieldAction {
    /// The entry that the action adds.
    pub open spec fn entry(self) -> SinkCall {
        SinkCall::AddField { field: self.field(), format: self.format() }
    }
}

/// The state after `call` is made in `state`; `None` where the call is not
/// allowed there.
pub open spec fn after_call(state: RenderState, call: SinkCall) -> Option<RenderState> {
    match (state, call) {
        (RenderState::NotStarted, SinkCall::BeginRecord { .. }) => Some(RenderState::RecordOpened),
        (RenderState::RecordOpened, SinkCall::AddField { .. }) => Some(RenderState::FieldAppended),
        (RenderState::FieldAppended, SinkCall::AddField { .. }) => Some(RenderState::FieldAppended),
        (RenderState::RecordOpened, SinkCall::Finish) => Some(RenderState::Finished),
        (RenderState::FieldAppended, SinkCall::Finish) => Some(RenderState::Finished),
        _ => None,
    }
}

/// The state after all of `calls` are made in order, starting with none
/// made; `None` where one of them is not allowed.
pub open spec fn after_calls(calls: Seq<SinkCall>) -> Option<RenderState>
    decreases calls.len(),
{
    if calls.len() == 0 {
        Some(RenderState::NotStarted)
    } else {
        match after_calls(calls.drop_last()) {
            Some(state) => after_call(state, calls.last()),
            None => None,
        }
    }
}

/// The entries that `actions` add, in order, where `omit[k]` is what the
/// condition of the action at `k` has answered. An action without a condition
/// always adds its entry.
pub open spec fn entries(actions: Seq<FieldAction>, omit: Seq<bool>) -> Seq<SinkCall>
    recommends
        omit.len() == actions.len(),
    decreases actions.len(),
{
    if actions.len() == 0 {
        Seq::empty()
    } else {
        let before = entries(actions.drop_last(), omit.drop_last());
        if actions.last() is ConditionalRender && omit.last() {
            before
        } else {
            before.push(actions.last().entry())
        }
    }
}

/// The calls that rendering a value under `plan` makes, where `omit[k]` is
/// what the condition of the action at `k` has answered for the value.
pub open spec fn calls_for(plan: VariantPlanView, omit: Seq<bool>) -> Seq<SinkCall> {
    seq![SinkCall::BeginRecord { label: plan.label, style: plan.style }] + entries(plan.actions, omit)
        + seq![SinkCall::Finish]
}

/// Whether `ask` may have answered `omit[k]` for the condition of the action
/// at `k`, for every action of `actions` that has a condition.
pub open spec fn asked<F: Fn(&ExprPath, &FieldRef) -> bool>(ask: F, actions: Seq<FieldAction>, omit: Seq<bool>) -> bool {
    &&& omit.len() <= actions.len()
    &&& forall|k: int|
        0 <= k < omit.len() ==> (#[trigger] actions[k] matches FieldAction::ConditionalRender {
            field,
            condition,
            ..
        } ==> call_ensures(ask, (&condition, &field), omit[k]))
}

/// The entry that renders `field` by its value itself.
pub open spec fn plain_entry(field: FieldShape) -> SinkCall {
    SinkCall::AddField { field: field.reference(), format: DebugFormat::Default }
}

/// The calls of a rendering keep the record open: after the opening call and
/// any number of entries the record is open, with or without entries.
proof fn lemma_entries_keep_open(opening: SinkCall, actions: Seq<FieldAction>, omit: Seq<bool>)
    requires
        opening is BeginRecord,
    ensures
        after_calls(seq![opening] + entries(actions, omit)) == Some(RenderState::RecordOpened) || after_calls(
            seq![opening] + entries(actions, omit),
        ) == Some(RenderState::FieldAppended),
    decreases actions.len(),
{
    let calls = seq![opening] + entries(actions, omit);
    if actions.len() == 0 {
        assert(calls =~= seq![opening]);
        assert(calls.drop_last() =~= Seq::<SinkCall>::empty());
        assert(after_calls(calls.drop_last()) == Some(RenderState::NotStarted));
    } else {
        let before = seq![opening] + entries(actions.drop_last(), omit.drop_last());
        lemma_entries_keep_open(opening, actions.drop_last(), omit.drop_last());
        if !(actions.last() is ConditionalRender && omit.last()) {
            assert(calls =~= before.push(actions.last().entry()));
            assert(calls.drop_last() =~= before);
        }
    }
}

/// The calls of a rendering follow the renderer's protocol: the record is
/// opened first, then entries are added, then the record is finished, and
/// nothing follows.
pub proof fn lemma_calls_follow_protocol(plan: VariantPlanView, omit: Seq<bool>)
    ensures
        after_calls(calls_for(plan, omit)) == Some(RenderState::Finished),
{
    let opening = SinkCall::BeginRecord { label: plan.label, style: plan.style };
    lemma_entries_keep_open(opening, plan.actions, omit);
    let calls = calls_for(plan, omit);
    assert(calls.drop_last() =~= seq![opening] + entries(plan.actions, omit));
    assert(calls.last() == SinkCall::Finish);
}

/// Actions without a condition add their entries whatever is answered.
pub proof fn lemma_entries_without_conditions(actions: Seq<FieldAction>, omit: Seq<bool>)
    requires
        forall|k: int| 0 <= k < actions.len() ==> #[trigger] actions[k] is Render,
    ensures
        entries(actions, omit) == actions.map_values(|action: FieldAction| action.entry()),
    decreases actions.len(),
{
    if actions.len() > 0 {
        lemma_entries_without_conditions(actions.drop_last(), omit.drop_last());
    }
    assert(entries(actions, omit) =~= actions.map_values(|action: FieldAction| action.entry()));
}

/// Rendering a value of a variant whose fields all have the default
/// directive is rendering every declared field by its value itself, in
/// declaration order, in a record with the variant's label and the style of
/// its kind.
pub proof fn lemma_default_directives_render_plainly(shape: VariantShape, omit: Seq<bool>)
    requires
        forall|i: int|
            0 <= i < shape.fields@.len() ==> (#[trigger] shape.fields@[i]).directive() == Ok::<
                FieldAttributes,
                MergeError,
            >(FieldAttributes::default_attributes()),
    ensures
        calls_for(shape.plan(), omit) == seq![
            SinkCall::BeginRecord { label: shape.label, style: style_of(shape.kind) },
        ] + shape.fields@.map_values(|field: FieldShape| plain_entry(field)) + seq![SinkCall::Finish],
{
    let fields = shape.fields@;
    lemma_default_directives_give_plain_plan(fields, 0);
    let actions = shape.plan().actions;
    assert(actions == fields.map_values(|field: FieldShape| plain_action(field)));
    lemma_entries_without_conditions(actions, omit);
    assert(entries(actions, omit) =~= fields.map_values(|field: FieldShape| plain_entry(field)));
}

/// Lists the calls that rendering one value under `plan` makes. `ask` is
/// called once for each action that has a condition, in order, with the
/// condition and the field; it says whether the condition holds of the
/// field's value.
pub fn render<F: Fn(&ExprPath, &FieldRef) -> bool>(plan: &VariantPlan, ask: F) -> (calls: Vec<SinkCall>)
    requires
        forall|k: int|
            0 <= k < plan.actions.len() ==> (#[trigger] plan.actions[k] matches FieldAction::ConditionalRender {
                field,
                condition,
                ..
            } ==> call_requires(ask, (&condition, &field))),
    ensures
        exists|omit: Seq<bool>|
            #[trigger] asked(ask, plan.actions@, omit) && omit.len() == plan.actions.len() && calls@
                == calls_for(plan@, omit),
        after_calls(calls@) == Some(RenderState::Finished),
{
    let ghost mut omit = Seq::<bool>::empty();
    let mut calls: Vec<SinkCall> = Vec::new();
    calls.push(SinkCall::BeginRecord { label: plan.label.clone(), style: plan.style });
    let ghost opening = calls@;
    let mut next: usize = 0;
    while next < plan.actions.len()
        invariant
            next <= plan.actions.len(),
            omit.len() == next,
            asked(ask, plan.actions@, omit),
            opening == seq![SinkCall::BeginRecord { label: plan.label, style: plan.style }],
            calls@ == opening + entries(plan.actions@.take(next as int), omit),
            forall|k: int|
                0 <= k < plan.actions.len() ==> (#[trigger] plan.actions[k] matches FieldAction::ConditionalRender {
                    field,
                    condition,
                    ..
                } ==> call_requires(ask, (&condition, &field))),
        decreases plan.actions.len() - next,
    {
        let ghost before = calls@;
        let (entry, answer) = match &plan.actions[next] {
            FieldAction::Render { field, format } => (
                Some(SinkCall::AddField { field: field.clone(), format: format.clone() }),
                false,
            ),
            FieldAction::ConditionalRender { field, condition, format } => {
                if ask(condition, field) {
                    (None, true)
                } else {
                    (Some(SinkCall::AddField { field: field.clone(), format: format.clone() }), false)
                }
            },
        };
        if let Some(entry) = entry {
            calls.push(entry);
        }
        proof {
            let longer = omit.push(answer);
            assert(longer.drop_last() =~= omit);
            assert(plan.actions@.take(next + 1).drop_last() =~= plan.actions@.take(next as int));
            assert(calls@ =~= opening + entries(plan.actions@.take(next + 1), longer));
            omit = longer;
        }
        next += 1;
    }
    calls.push(SinkCall::Finish);
    proof {
        assert(plan.actions@.take(next as int) =~= plan.actions@);
        assert(calls@ =~= calls_for(plan@, omit));
        lemma_calls_follow_protocol(plan@, omit);
    }
    calls
}

} // verus!
