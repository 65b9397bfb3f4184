//! The plan builder: turns the shape of a type, with the fragments attached
//! to its fields, into a rendering plan.
//!
//! A plan lists the variants in declaration order. For each variant it gives
//! the name and the style of the record, and one action for each field that is
//! rendered, in declaration order. A field whose directive says that it is
//! never rendered has no action.

use vstd::prelude::*;
use syn::ExprPath;
use crate::field_attributes::{DebugFormat, FieldAttributes, SkipMode};
use crate::merge::{lemma_merge_error_persists, merge, parse_field_attributes, Fragment, MergeError};
use crate::retain::{answers, retained, try_retain};

verus! {

/// How the fields of a variant are declared.
#[derive(Debug, Clone, Copy, PartialEq, Eq, Structural)]
pub enum FieldsKind {
    /// Fields with names, in braces.
    Named,
    /// Fields without names, in parentheses.
    Unnamed,
    /// No fields at all.
    Unit,
}

/// The style of a rendered record.
#[derive(Debug, Clone, Copy, PartialEq, Eq, Structural)]
pub enum RecordStyle {
    /// A record whose entries have names.
    Named,
    /// A record whose entries are told apart by their order alone.
    Positional,
}

/// One field of one variant, as declared.
#[derive(Debug, PartialEq, Eq)]
pub struct FieldShape {
    /// The field's name, where it has one.
    pub name: Option<String>,
    /// The field's index among the declared fields of its variant. It stays
    /// the same when other fields are removed.
    pub position: usize,
    /// The fragments attached to the field, in source order.
    pub fragments: Vec<Fragment>,
}

/// One variant of a type, as declared. A struct has one variant.
#[derive(Debug, PartialEq, Eq)]
pub struct VariantShape {
    /// The name under which the variant's record is rendered.
    pub label: String,
    /// How the variant's fields are declared.
    pub kind: FieldsKind,
    /// The fields, in declaration order.
    pub fields: Vec<FieldShape>,
}

/// The field that an action renders.
#[derive(Debug, PartialEq, Eq)]
pub struct FieldRef {
    /// The name of the entry, where the field has one.
    pub name: Option<String>,
    /// The field's index among the declared fields of its variant.
    pub position: usize,
}

/// What rendering does with one field.
#[derive(Debug, PartialEq, Eq)]
pub enum FieldAction {
    /// The field is rendered as `format` says.
    Render { field: FieldRef, format: DebugFormat },
    /// The function at `condition` is applied to the field's value. Where it
    /// returns `true` the field is left out; otherwise the field is rendered
    /// as `format` says.
    ConditionalRender { field: FieldRef, condition: ExprPath, format: DebugFormat },
}

/// The plan for one variant.
#[derive(Debug, PartialEq, Eq)]
pub struct VariantPlan {
    /// The name of the record.
    pub label: String,
    /// The style of the record.
    pub style: RecordStyle,
    /// The actions, in the declaration order of their fields.
    pub actions: Vec<FieldAction>,
}

/// The plan for a type: one plan for each variant, in declaration order.
#[derive(Debug, PartialEq, Eq)]
pub struct RenderingPlan {
    pub variants: Vec<VariantPlan>,
}

/// The fragments of one field of one variant do not merge.
#[derive(Debug, Clone, Copy, PartialEq, Eq, Structural)]
pub struct BuildError {
    /// The index of the variant.
    pub variant: usize,
    /// The position of the field.
    pub field: usize,
    /// Why the fragments do not merge.
    pub error: MergeError,
}

/// A variant's plan as a mathematical value.
pub ghost struct VariantPlanView {
    pub label: String,
    pub style: RecordStyle,
    pub actions: Seq<FieldAction>,
}

impl View for VariantPlan {
    type V = VariantPlanView;

    open spec fn view(&self) -> VariantPlanView {
        VariantPlanView { label: self.label, style: self.style, actions: self.actions@ }
    }
}

impl View for RenderingPlan {
    type V = Seq<VariantPlanView>;

    open spec fn view(&self) -> Seq<VariantPlanView> {
        self.variants@.map_values(|variant: VariantPlan| variant@)
    }
}

impl Clone for FieldRef {
    fn clone(&self) -> (copy: Self)
        ensures
            copy == *self,
    {
        FieldRef {
            name: match &self.name {
                Some(name) => Some(name.clone()),
                None => None,
            },
            position: self.position,
        }
    }
}

impl Clone for FieldAction {
    fn clone(&self) -> (copy: Self)
        ensures
            copy == *self,
    {
        match self {
            FieldAction::Render { field, format } => FieldAction::Render {
                field: field.clone(),
                format: format.clone(),
            },
            FieldAction::ConditionalRender { field, condition, format } => FieldAction::ConditionalRender {
                field: field.clone(),
                condition: condition.clone(),
                format: format.clone(),
            },
        }
    }
}

impl Clone for VariantPlan {
    fn clone(&self) -> (copy: Self)
        ensures
            copy@ == self@,
    {
        let mut actions: Vec<FieldAction> = Vec::new();
        let mut next: usize = 0;
        while next < self.actions.len()
            invariant
                next <= self.actions.len(),
                actions@ == self.actions@.take(next as int),
            decreases self.actions.len() - next,
        {
            actions.push(self.actions[next].clone());
            proof {
                assert(actions@ =~= self.actions@.take(next + 1));
            }
            next += 1;
        }
        proof {
            assert(self.actions@.take(next as int) =~= self.actions@);
        }
        VariantPlan { label: self.label.clone(), style: self.style, actions }
    }
}

impl Clone for RenderingPlan {
    fn clone(&self) -> (copy: Self)
        ensures
            copy@ == self@,
    {
        let mut variants: Vec<VariantPlan> = Vec::new();
        let mut next: usize = 0;
        while next < self.variants.len()
            invariant
                next <= self.variants.len(),
                variants@.len() == next,
                forall|v: int| 0 <= v < next ==> (#[trigger] variants@[v])@ == self.variants@[v]@,
            decreases self.variants.len() - next,
        {
            variants.push(self.variants[next].clone());
            next += 1;
        }
        let copy = RenderingPlan { variants };
        proof {
            assert(copy@ =~= self@);
        }
        copy
    }
}

impl FieldAction {
    /// The field that the action renders.
    pub open spec fn field(self) -> FieldRef {
        match self {
            FieldAction::Render { field, .. } => field,
            FieldAction::ConditionalRender { field, .. } => field,
        }
    }

    /// How the action renders the field.
    pub open spec fn format(self) -> DebugFormat {
        match self {
            FieldAction::Render { format, .. } => format,
            FieldAction::ConditionalRender { format, .. } => format,
        }
    }

    /// The position of the field, where its value has to be able to render
    /// itself: it has to unless a function of the caller renders it.
    pub open spec fn requirement(self) -> Option<usize> {
        if self.format() is With {
            None
        } else {
            Some(self.field().position)
        }
    }

    /// The position of the field, where its value has to be able to render
    /// itself.
    pub fn required_capability(&self) -> (position: Option<usize>)
        ensures
            position == self.requirement(),
    {
        match self {
            FieldAction::Render { format: DebugFormat::With(_), .. } => None,
            FieldAction::ConditionalRender { format: DebugFormat::With(_), .. } => None,
            FieldAction::Render { field, .. } => Some(field.position),
            FieldAction::ConditionalRender { field, .. } => Some(field.position),
        }
    }
}

/// The map from an action to the position of its field, where the field's
/// value has to be able to render itself.
pub open spec fn to_requirement() -> spec_fn(FieldAction) -> Option<usize> {
    |action: FieldAction| action.requirement()
}

impl VariantPlan {
    /// The positions of the fields whose values have to be able to render
    /// themselves, in declaration order: those of the actions that render by
    /// the value itself or through a template. A field that is never rendered
    /// has no action and so is not among them; neither is a field that a
    /// function of the caller renders.
    pub fn required_capabilities(&self) -> (positions: Vec<usize>)
        ensures
            positions@ == self.actions@.filter_map(to_requirement()),
    {
        let mut positions: Vec<usize> = Vec::new();
        let mut next: usize = 0;
        proof {
            assert(self.actions@.take(0) =~= Seq::<FieldAction>::empty());
        }
        while next < self.actions.len()
            invariant
                next <= self.actions.len(),
                positions@ == self.actions@.take(next as int).filter_map(to_requirement()),
            decreases self.actions.len() - next,
        {
            proof {
                self.actions@.lemma_filter_map_take_succ(to_requirement(), next as int);
            }
            if let Some(position) = self.actions[next].required_capability() {
                positions.push(position);
            }
            next += 1;
        }
        proof {
            assert(self.actions@.take(next as int) =~= self.actions@);
        }
        positions
    }
}

/// The style of the record of a variant: positional where the fields have no
/// names, named otherwise.
pub open spec fn style_of(kind: FieldsKind) -> RecordStyle {
    match kind {
        FieldsKind::Named => RecordStyle::Named,
        FieldsKind::Unit => RecordStyle::Named,
        FieldsKind::Unnamed => RecordStyle::Positional,
    }
}

/// The action for a field with the given directive: none where the field is
/// never rendered, a conditional one where a condition decides, a plain one
/// otherwise. The action carries the directive's rendering as it is.
pub open spec fn action_for(field: FieldRef, attributes: FieldAttributes) -> Option<FieldAction> {
    match attributes.skip_mode {
        SkipMode::Always => None,
        SkipMode::Default => Some(FieldAction::Render { field, format: attributes.debug_format }),
        SkipMode::Condition(condition) => Some(
            FieldAction::ConditionalRender { field, condition, format: attributes.debug_format },
        ),
    }
}

impl FieldShape {
    /// The field's directive: its fragments, merged.
    pub open spec fn directive(self) -> Result<FieldAttributes, MergeError> {
        merge(self.fragments@)
    }

    /// What an action says of the field it renders.
    pub open spec fn reference(self) -> FieldRef {
        FieldRef { name: self.name, position: self.position }
    }

    /// Whether the field's directive says that it is never rendered.
    pub open spec fn skipped(self) -> bool {
        self.directive() matches Ok(attributes) && attributes.skip_mode is Always
    }

    /// The field's action, where its fragments merge and it is rendered.
    pub open spec fn action(self) -> Option<FieldAction> {
        match self.directive() {
            Ok(attributes) => action_for(self.reference(), attributes),
            Err(_) => None,
        }
    }

    /// Whether the field stays when the skipped ones are removed, or the
    /// error where the fragments of the field, in the variant at index
    /// `variant`, do not merge.
    pub open spec fn verdict(self, variant: int) -> Result<bool, BuildError> {
        match self.directive() {
            Ok(attributes) => Ok(!(attributes.skip_mode is Always)),
            Err(error) => Err(BuildError { variant: variant as usize, field: self.position, error }),
        }
    }
}

/// The test that tells the fields that are not skipped.
pub open spec fn not_skipped() -> spec_fn(FieldShape) -> bool {
    |field: FieldShape| !field.skipped()
}

/// The map from a field to its action.
pub open spec fn to_action() -> spec_fn(FieldShape) -> Option<FieldAction> {
    |field: FieldShape| field.action()
}

/// The error of the first of `fields`, in declaration order, whose fragments
/// do not merge; `None` where all merge. `variant` is the index of the
/// variant that the fields belong to.
pub open spec fn first_failure(fields: Seq<FieldShape>, variant: int) -> Option<BuildError>
    decreases fields.len(),
{
    if fields.len() == 0 {
        None
    } else {
        match first_failure(fields.drop_last(), variant) {
            Some(error) => Some(error),
            None => match fields.last().verdict(variant) {
                Err(error) => Some(error),
                Ok(_) => None,
            },
        }
    }
}

/// The error of the first field of the type, in declaration order, whose
/// fragments do not merge; `None` where those of every field merge.
pub open spec fn build_failure(structure: Seq<VariantShape>) -> Option<BuildError>
    decreases structure.len(),
{
    if structure.len() == 0 {
        None
    } else {
        match build_failure(structure.drop_last()) {
            Some(error) => Some(error),
            None => first_failure(structure.last().fields@, structure.len() - 1),
        }
    }
}

impl VariantShape {
    /// Whether the variant is described as a declaration gives it: the
    /// position of each field is its index, fields declared with names all
    /// have one, fields declared without names have none, and a variant
    /// declared without fields has none.
    pub open spec fn well_formed(self) -> bool {
        &&& forall|i: int| 0 <= i < self.fields@.len() ==> (#[trigger] self.fields@[i]).position == i
        &&& match self.kind {
            FieldsKind::Named => forall|i: int|
                0 <= i < self.fields@.len() ==> (#[trigger] self.fields@[i]).name is Some,
            FieldsKind::Unnamed => forall|i: int|
                0 <= i < self.fields@.len() ==> (#[trigger] self.fields@[i]).name is None,
            FieldsKind::Unit => self.fields@.len() == 0,
        }
    }

    /// The plan of the variant, where the fragments of all its fields merge:
    /// its label, the style that goes with its kind, and the actions of its
    /// fields in declaration order.
    pub open spec fn plan(self) -> VariantPlanView {
        VariantPlanView {
            label: self.label,
            style: style_of(self.kind),
            actions: self.fields@.filter_map(to_action()),
        }
    }
}

/// The plan of a type, where the fragments of all its fields merge: the
/// plans of its variants, in declaration order.
pub open spec fn plan_of(structure: Seq<VariantShape>) -> Seq<VariantPlanView> {
    structure.map_values(|variant: VariantShape| variant.plan())
}

/// A failure among the first fields of a variant is the failure of the
/// variant.
pub proof fn lemma_first_failure_persists(fields: Seq<FieldShape>, variant: int, prefix: int)
    requires
        0 <= prefix <= fields.len(),
        first_failure(fields.take(prefix), variant) is Some,
    ensures
        first_failure(fields, variant) == first_failure(fields.take(prefix), variant),
    decreases fields.len(),
{
    if prefix < fields.len() {
        assert(fields.drop_last().take(prefix) =~= fields.take(prefix));
        lemma_first_failure_persists(fields.drop_last(), variant, prefix);
    } else {
        assert(fields.take(prefix) =~= fields);
    }
}

/// A failure among the first variants of a type is the failure of the type.
pub proof fn lemma_build_failure_persists(structure: Seq<VariantShape>, prefix: int)
    requires
        0 <= prefix <= structure.len(),
        build_failure(structure.take(prefix)) is Some,
    ensures
        build_failure(structure) == build_failure(structure.take(prefix)),
    decreases structure.len(),
{
    if prefix < structure.len() {
        assert(structure.drop_last().take(prefix) =~= structure.take(prefix));
        lemma_build_failure_persists(structure.drop_last(), prefix);
    } else {
        assert(structure.take(prefix) =~= structure);
    }
}

/// Whether the fragments of every field of every variant merge.
pub open spec fn all_merge(structure: Seq<VariantShape>) -> bool {
    forall|v: int, i: int|
        0 <= v < structure.len() && 0 <= i < structure[v].fields@.len() ==> (#[trigger] structure[v].fields@[i]).directive()
            is Ok
}

/// Whether `error` tells of the field at index `field` among `fields`, the
/// declared fields of the variant at index `variant`: the fragments of that
/// field fail to merge with this error, and those of every field before it
/// merge.
pub open spec fn fails_first(fields: Seq<FieldShape>, variant: int, error: BuildError, field: int) -> bool {
    &&& error.variant == variant
    &&& 0 <= field < fields.len()
    &&& error.field == fields[field].position
    &&& fields[field].directive() == Err::<FieldAttributes, MergeError>(error.error)
    &&& forall|j: int| 0 <= j < field ==> (#[trigger] fields[j]).directive() is Ok
}

/// No field of a variant fails exactly where the fragments of each field
/// merge; otherwise the failure is that of the first field whose fragments do
/// not merge.
pub proof fn lemma_first_failure(fields: Seq<FieldShape>, variant: int)
    requires
        0 <= variant <= usize::MAX,
    ensures
        first_failure(fields, variant) is None <==> forall|i: int|
            0 <= i < fields.len() ==> (#[trigger] fields[i]).directive() is Ok,
        first_failure(fields, variant) matches Some(error) ==> exists|field: int|
            #[trigger] fails_first(fields, variant, error, field),
    decreases fields.len(),
{
    if fields.len() > 0 {
        let before = fields.drop_last();
        lemma_first_failure(before, variant);
        assert(forall|i: int| 0 <= i < before.len() ==> before[i] == fields[i]);
        match first_failure(before, variant) {
            Some(error) => {
                let field = choose|field: int| #[trigger] fails_first(before, variant, error, field);
                assert(fails_first(fields, variant, error, field));
                assert(!(fields[field].directive() is Ok));
            },
            None => {
                if let Err(error) = fields.last().verdict(variant) {
                    assert(fails_first(fields, variant, error, fields.len() - 1));
                    assert(!(fields[fields.len() - 1].directive() is Ok));
                }
            },
        }
    }
}

/// Building a plan succeeds exactly where the fragments of every field of
/// the type merge. Otherwise it fails with the error of the first field, in
/// declaration order, whose fragments do not merge: every field of an earlier
/// variant and every earlier field of the same variant merges.
pub proof fn lemma_build_failure(structure: Seq<VariantShape>)
    requires
        structure.len() <= usize::MAX,
    ensures
        build_failure(structure) is None <==> all_merge(structure),
        build_failure(structure) matches Some(error) ==> {
            &&& error.variant < structure.len()
            &&& exists|field: int|
                #[trigger] fails_first(structure[error.variant as int].fields@, error.variant as int, error, field)
            &&& all_merge(structure.take(error.variant as int))
        },
    decreases structure.len(),
{
    if structure.len() > 0 {
        let before = structure.drop_last();
        let last = structure.len() - 1;
        lemma_build_failure(before);
        lemma_first_failure(structure.last().fields@, last);
        assert(forall|v: int| 0 <= v < last ==> before[v] == structure[v]);
        match build_failure(before) {
            Some(error) => {
                assert(structure.take(error.variant as int) =~= before.take(error.variant as int));
                let field = choose|field: int|
                    #[trigger] fails_first(before[error.variant as int].fields@, error.variant as int, error, field);
                assert(!(structure[error.variant as int].fields@[field].directive() is Ok));
            },
            None => {
                assert(structure.take(last) =~= before);
                match first_failure(structure.last().fields@, last) {
                    Some(error) => {
                        let field = choose|field: int|
                            #[trigger] fails_first(structure[last].fields@, last, error, field);
                        assert(!(structure[last].fields@[field].directive() is Ok));
                    },
                    None => {
                        assert forall|v: int, i: int|
                            0 <= v < structure.len() && 0 <= i < structure[v].fields@.len() implies (
                        #[trigger] structure[v].fields@[i]).directive() is Ok by {
                            if v < last {
                                assert(before[v].fields@[i].directive() is Ok);
                            }
                        }
                    },
                }
            },
        }
    }
}

/// Whether the positions of `fields` grow from each field to the next, as
/// they do for the declared fields of a variant, also after some of them are
/// removed.
pub open spec fn in_declaration_order(fields: Seq<FieldShape>) -> bool {
    forall|i: int, j: int| 0 <= i < j < fields.len() ==> fields[i].position < fields[j].position
}

/// Whether the positions of the fields that `actions` render grow from each
/// action to the next.
pub open spec fn actions_in_order(actions: Seq<FieldAction>) -> bool {
    forall|i: int, j: int|
        0 <= i < j < actions.len() ==> actions[i].field().position < actions[j].field().position
}

/// Every action of a variant is the action of one of its fields, and every
/// field that has an action finds it among the actions of the variant.
pub proof fn lemma_actions_are_of_fields(fields: Seq<FieldShape>)
    ensures
        forall|k: int|
            0 <= k < fields.filter_map(to_action()).len() ==> exists|i: int|
                0 <= i < fields.len() && #[trigger] fields[i].action() == Some(
                    #[trigger] fields.filter_map(to_action())[k],
                ),
        forall|i: int|
            0 <= i < fields.len() && (#[trigger] fields[i].action()) is Some ==> fields.filter_map(
                to_action(),
            ).contains(fields[i].action()->Some_0),
    decreases fields.len(),
{
    let actions = fields.filter_map(to_action());
    if fields.len() > 0 {
        let before = fields.drop_last();
        let earlier = before.filter_map(to_action());
        lemma_actions_are_of_fields(before);
        assert forall|k: int| 0 <= k < actions.len() implies exists|i: int|
            0 <= i < fields.len() && #[trigger] fields[i].action() == Some(#[trigger] actions[k]) by {
            if k < earlier.len() {
                let i = choose|i: int|
                    0 <= i < before.len() && #[trigger] before[i].action() == Some(earlier[k]);
                assert(fields[i].action() == Some(actions[k]));
            } else {
                assert(fields[fields.len() - 1].action() == Some(actions[k]));
            }
        }
        assert forall|i: int| 0 <= i < fields.len() && (#[trigger] fields[i].action()) is Some implies actions.contains(
            fields[i].action()->Some_0,
        ) by {
            if i < before.len() {
                assert(before[i].action() is Some);
                let k = choose|k: int| 0 <= k < earlier.len() && earlier[k] == before[i].action()->Some_0;
                assert(actions[k] == fields[i].action()->Some_0);
            } else {
                assert(actions[actions.len() - 1] == fields[i].action()->Some_0);
            }
        }
    }
}

/// A field that is never rendered has no action in the plan of its variant,
/// whatever its directive says about rendering: no action of the plan renders
/// a field at its position.
pub proof fn lemma_skipped_field_has_no_action(shape: VariantShape, skipped: int)
    requires
        in_declaration_order(shape.fields@),
        0 <= skipped < shape.fields@.len(),
        shape.fields@[skipped].skipped(),
    ensures
        forall|k: int|
            0 <= k < shape.plan().actions.len() ==> (#[trigger] shape.plan().actions[k]).field().position
                != shape.fields@[skipped].position,
{
    let fields = shape.fields@;
    let actions = shape.plan().actions;
    lemma_actions_are_of_fields(fields);
    assert forall|k: int| 0 <= k < actions.len() implies (#[trigger] actions[k]).field().position
        != fields[skipped].position by {
        let i = choose|i: int| 0 <= i < fields.len() && #[trigger] fields[i].action() == Some(actions[k]);
        assert(actions[k].field() == fields[i].reference());
        assert(i != skipped);
        if i < skipped {
            assert(fields[i].position < fields[skipped].position);
        } else {
            assert(fields[skipped].position < fields[i].position);
        }
    }
}

/// A field that is never rendered lays no requirement on its value: its
/// position is not among those whose values have to render themselves.
pub proof fn lemma_skipped_field_needs_no_capability(shape: VariantShape, skipped: int)
    requires
        in_declaration_order(shape.fields@),
        0 <= skipped < shape.fields@.len(),
        shape.fields@[skipped].skipped(),
    ensures
        !shape.plan().actions.filter_map(to_requirement()).contains(shape.fields@[skipped].position),
{
    let actions = shape.plan().actions;
    let position = shape.fields@[skipped].position;
    lemma_skipped_field_has_no_action(shape, skipped);
    if actions.filter_map(to_requirement()).contains(position) {
        actions.lemma_filter_map_contains(to_requirement(), position);
        let action = choose|action: FieldAction|
            #[trigger] actions.contains(action) && to_requirement()(action) == Some(position);
        let k = choose|k: int| 0 <= k < actions.len() && actions[k] == action;
        assert(actions[k].field().position == position);
    }
}

/// The actions of a variant come in the declaration order of their fields.
pub proof fn lemma_actions_keep_order(fields: Seq<FieldShape>)
    requires
        in_declaration_order(fields),
    ensures
        actions_in_order(fields.filter_map(to_action())),
    decreases fields.len(),
{
    let actions = fields.filter_map(to_action());
    if fields.len() > 0 {
        let before = fields.drop_last();
        let earlier = before.filter_map(to_action());
        assert(in_declaration_order(before));
        lemma_actions_keep_order(before);
        lemma_actions_are_of_fields(before);
        assert forall|i: int, j: int| 0 <= i < j < actions.len() implies actions[i].field().position
            < actions[j].field().position by {
            if j >= earlier.len() {
                let source = choose|source: int|
                    0 <= source < before.len() && #[trigger] before[source].action() == Some(earlier[i]);
                assert(actions[i].field() == fields[source].reference());
                assert(actions[j].field() == fields[fields.len() - 1].reference());
            }
        }
    }
}

/// The plan of a type lists its variants in declaration order, each under
/// its label and with the style of its kind, and the actions of each variant
/// in the declaration order of its fields.
pub proof fn lemma_plan_keeps_order(structure: Seq<VariantShape>)
    ensures
        plan_of(structure).len() == structure.len(),
        forall|v: int|
            0 <= v < structure.len() ==> {
                &&& (#[trigger] plan_of(structure)[v]).label == structure[v].label
                &&& plan_of(structure)[v].style == style_of(structure[v].kind)
                &&& in_declaration_order(structure[v].fields@) ==> actions_in_order(
                    plan_of(structure)[v].actions,
                )
            },
{
    assert forall|v: int| 0 <= v < structure.len() implies {
        &&& (#[trigger] plan_of(structure)[v]).label == structure[v].label
        &&& plan_of(structure)[v].style == style_of(structure[v].kind)
        &&& in_declaration_order(structure[v].fields@) ==> actions_in_order(plan_of(structure)[v].actions)
    } by {
        if in_declaration_order(structure[v].fields@) {
            lemma_actions_keep_order(structure[v].fields@);
        }
    }
}

/// In the plan of a well-formed variant the entries fit the style of the
/// record: the actions of a named record all name their entry, those of a
/// positional record do not, and the actions come in declaration order.
pub proof fn lemma_entries_fit_style(shape: VariantShape)
    requires
        shape.well_formed(),
    ensures
        in_declaration_order(shape.fields@),
        actions_in_order(shape.plan().actions),
        forall|k: int|
            0 <= k < shape.plan().actions.len() ==> ((#[trigger] shape.plan().actions[k]).field().name is Some
                <==> shape.plan().style == RecordStyle::Named),
{
    let fields = shape.fields@;
    let actions = shape.plan().actions;
    lemma_actions_keep_order(fields);
    lemma_actions_are_of_fields(fields);
    assert forall|k: int| 0 <= k < actions.len() implies ((#[trigger] actions[k]).field().name is Some
        <==> shape.plan().style == RecordStyle::Named) by {
        let source = choose|source: int|
            0 <= source < fields.len() && #[trigger] fields[source].action() == Some(actions[k]);
        assert(actions[k].field() == fields[source].reference());
    }
}

/// The action that renders `field` by its value itself, without a condition.
pub open spec fn plain_action(field: FieldShape) -> FieldAction {
    FieldAction::Render { field: field.reference(), format: DebugFormat::Default }
}

/// Where the directive of every field is the default, the variant has one
/// action for each declared field, in declaration order, and each renders its
/// field by the value itself, without a condition.
pub proof fn lemma_default_directives_give_plain_plan(fields: Seq<FieldShape>, variant: int)
    requires
        forall|i: int|
            0 <= i < fields.len() ==> (#[trigger] fields[i]).directive() == Ok::<FieldAttributes, MergeError>(
                FieldAttributes::default_attributes(),
            ),
    ensures
        first_failure(fields, variant) is None,
        fields.filter_map(to_action()) == fields.map_values(|field: FieldShape| plain_action(field)),
    decreases fields.len(),
{
    if fields.len() > 0 {
        let before = fields.drop_last();
        lemma_default_directives_give_plain_plan(before, variant);
        assert(fields.last().action() == Some(plain_action(fields.last())));
        assert(fields.filter_map(to_action()) =~= fields.map_values(|field: FieldShape| plain_action(field)));
    } else {
        assert(fields.filter_map(to_action()) =~= fields.map_values(|field: FieldShape| plain_action(field)));
    }
}

/// The style of the record of a variant.
pub fn record_style(kind: FieldsKind) -> (style: RecordStyle)
    ensures
        style == style_of(kind),
{
    match kind {
        FieldsKind::Named | FieldsKind::Unit => RecordStyle::Named,
        FieldsKind::Unnamed => RecordStyle::Positional,
    }
}

/// Decides what rendering does with a field that has the given directive.
pub fn field_action(field: FieldRef, attributes: FieldAttributes) -> (action: Option<FieldAction>)
    ensures
        action == action_for(field, attributes),
{
    let FieldAttributes { skip_mode, debug_format } = attributes;
    match skip_mode {
        SkipMode::Default => Some(FieldAction::Render { field, format: debug_format }),
        SkipMode::Condition(condition) => Some(
            FieldAction::ConditionalRender { field, condition, format: debug_format },
        ),
        SkipMode::Always => None,
    }
}

/// Builds the plan of the variant at index `index` of its type: merges the
/// fragments of each field in declaration order and stops at the first field
/// whose fragments do not merge.
pub fn plan_variant(shape: VariantShape, index: usize) -> (plan: Result<VariantPlan, BuildError>)
    ensures
        match plan {
            Ok(plan) => first_failure(shape.fields@, index as int) is None && plan@ == shape.plan(),
            Err(error) => first_failure(shape.fields@, index as int) == Some(error),
        },
{
    let VariantShape { label, kind, fields } = shape;
    let ghost all = fields@;
    let mut actions: Vec<FieldAction> = Vec::new();
    proof {
        assert(all.take(0) =~= Seq::<FieldShape>::empty());
    }
    for field in it: fields.into_iter()
        invariant
            it.seq() == all,
            all == shape.fields@,
            first_failure(all.take(it.index() as int), index as int) is None,
            actions@ == all.take(it.index() as int).filter_map(to_action()),
    {
        let ghost reached = it.index() as int;
        proof {
            assert(all.take(reached + 1).drop_last() =~= all.take(reached));
            all.lemma_filter_map_take_succ(to_action(), reached);
        }
        let FieldShape { name, position, fragments } = field;
        match parse_field_attributes(&fragments) {
            Err(error) => {
                proof {
                    lemma_first_failure_persists(all, index as int, reached + 1);
                }
                return Err(BuildError { variant: index, field: position, error });
            },
            Ok(attributes) => {
                if let Some(action) = field_action(FieldRef { name, position }, attributes) {
                    actions.push(action);
                }
            },
        }
    }
    proof {
        assert(all.take(all.len() as int) =~= all);
    }
    Ok(VariantPlan { label, style: record_style(kind), actions })
}

/// Whether `kept` is `shape` without its skipped fields.
pub open spec fn is_without_skipped(kept: VariantShape, shape: VariantShape) -> bool {
    &&& kept.label == shape.label
    &&& kept.kind == shape.kind
    &&& kept.fields@ == shape.fields@.filter(not_skipped())
}

/// Where the test has answered for every field, no field fails and the
/// fields that were retained are those that are not skipped.
proof fn lemma_all_answered(fields: Seq<FieldShape>, keep: Seq<bool>, variant: int)
    requires
        keep.len() == fields.len(),
        forall|i: int| 0 <= i < fields.len() ==> fields[i].verdict(variant) == Ok::<bool, BuildError>(keep[i]),
    ensures
        first_failure(fields, variant) is None,
        retained(fields, keep) == fields.filter(not_skipped()),
    decreases fields.len(),
{
    reveal(Seq::filter);
    if fields.len() > 0 {
        lemma_all_answered(fields.drop_last(), keep.drop_last(), variant);
    }
}

/// Where the test has answered for the first fields and failed at the next,
/// that failure is the first of the variant.
proof fn lemma_answered_until(fields: Seq<FieldShape>, keep: Seq<bool>, variant: int, error: BuildError)
    requires
        keep.len() < fields.len(),
        forall|i: int| 0 <= i < keep.len() ==> fields[i].verdict(variant) == Ok::<bool, BuildError>(keep[i]),
        fields[keep.len() as int].verdict(variant) == Err::<bool, BuildError>(error),
    ensures
        first_failure(fields, variant) == Some(error),
{
    let stop = keep.len() as int;
    let before = fields.take(stop);
    assert forall|i: int| 0 <= i < before.len() implies before[i].verdict(variant) == Ok::<bool, BuildError>(
        keep[i],
    ) by {}
    lemma_all_answered(before, keep, variant);
    assert(fields.take(stop + 1).drop_last() =~= before);
    lemma_first_failure_persists(fields, variant, stop + 1);
}

/// Where no field of a type fails, no field of any of its variants does.
pub proof fn lemma_no_failure_in_variant(structure: Seq<VariantShape>, variant: int)
    requires
        build_failure(structure) is None,
        0 <= variant < structure.len(),
    ensures
        first_failure(structure[variant].fields@, variant) is None,
    decreases structure.len(),
{
    if variant < structure.len() - 1 {
        lemma_no_failure_in_variant(structure.drop_last(), variant);
    }
}

/// Removing the skipped fields brings no failure and takes no action away.
pub proof fn lemma_filter_keeps_actions(fields: Seq<FieldShape>, variant: int)
    ensures
        first_failure(fields, variant) is None ==> first_failure(fields.filter(not_skipped()), variant) is None,
        fields.filter(not_skipped()).filter_map(to_action()) == fields.filter_map(to_action()),
    decreases fields.len(),
{
    reveal(Seq::filter);
    if fields.len() > 0 {
        let before = fields.drop_last();
        lemma_filter_keeps_actions(before, variant);
        if !fields.last().skipped() {
            let kept = before.filter(not_skipped()).push(fields.last());
            assert(kept.drop_last() =~= before.filter(not_skipped()));
        }
    }
}

/// The fields that stay when the skipped ones are removed are still in
/// declaration order: each keeps its position.
pub proof fn lemma_filter_keeps_order(fields: Seq<FieldShape>)
    requires
        in_declaration_order(fields),
    ensures
        in_declaration_order(fields.filter(not_skipped())),
    decreases fields.len(),
{
    reveal(Seq::filter);
    if fields.len() > 0 {
        let before = fields.drop_last();
        let kept = before.filter(not_skipped());
        assert(in_declaration_order(before));
        lemma_filter_keeps_order(before);
        if !fields.last().skipped() {
            let all = fields.filter(not_skipped());
            assert forall|i: int, j: int| 0 <= i < j < all.len() implies all[i].position < all[j].position by {
                if j == kept.len() {
                    assert(kept.contains(kept[i]));
                    before.lemma_filter_contains_rev(not_skipped(), kept[i]);
                    let source = choose|source: int| 0 <= source < before.len() && before[source] == kept[i];
                    assert(fields[source].position < fields[fields.len() - 1].position);
                }
            }
        }
    }
}

/// Removes from every variant the fields that are never rendered. The fields
/// are visited in declaration order, variant by variant; at the first field
/// whose fragments do not merge, its error is returned.
pub fn filter_out_skipped_fields(structure: Vec<VariantShape>) -> (kept: Result<Vec<VariantShape>, BuildError>)
    ensures
        match kept {
            Ok(kept) => {
                &&& build_failure(structure@) is None
                &&& kept@.len() == structure@.len()
                &&& forall|v: int| 0 <= v < kept@.len() ==> is_without_skipped(#[trigger] kept@[v], structure@[v])
            },
            Err(error) => build_failure(structure@) == Some(error),
        },
{
    let ghost all = structure@;
    let total = structure.len();
    let mut kept: Vec<VariantShape> = Vec::new();
    let mut index: usize = 0;
    proof {
        assert(all.take(0) =~= Seq::<VariantShape>::empty());
    }
    for shape in it: structure.into_iter()
        invariant
            it.seq() == all,
            all == structure@,
            all.len() == total,
            index == it.index(),
            build_failure(all.take(index as int)) is None,
            kept@.len() == index,
            forall|v: int| 0 <= v < index ==> is_without_skipped(#[trigger] kept@[v], all[v]),
    {
        proof {
            assert(all.take(index + 1).drop_last() =~= all.take(index as int));
        }
        let VariantShape { label, kind, fields } = shape;
        let ghost declared = fields@;
        let test = |field: &FieldShape| -> (verdict: Result<bool, BuildError>)
            ensures
                verdict == field.verdict(index as int),
            {
                match parse_field_attributes(&field.fragments) {
                    Ok(attributes) => Ok(!attributes.skip_mode.is_always()),
                    Err(error) => Err(BuildError { variant: index, field: field.position, error }),
                }
            };
        match try_retain(fields, test) {
            Err(error) => {
                proof {
                    let keep = choose|keep: Seq<bool>|
                        #[trigger] answers(test, declared, keep) && keep.len() < declared.len() && call_ensures(
                            test,
                            (&declared[keep.len() as int],),
                            Err(error),
                        );
                    lemma_answered_until(declared, keep, index as int, error);
                    lemma_build_failure_persists(all, index + 1);
                }
                return Err(error);
            },
            Ok(fields) => {
                proof {
                    let keep = choose|keep: Seq<bool>|
                        #[trigger] answers(test, declared, keep) && keep.len() == declared.len() && fields@
                            == retained(declared, keep);
                    lemma_all_answered(declared, keep, index as int);
                }
                kept.push(VariantShape { label, kind, fields });
            },
        }
        index += 1;
    }
    proof {
        assert(all.take(all.len() as int) =~= all);
    }
    Ok(kept)
}

/// Builds the plan of a type. The fragments of each field are merged in
/// declaration order, variant by variant; the first field whose fragments do
/// not merge makes the build fail with that field's error, and no plan is
/// produced.
pub fn build(structure: Vec<VariantShape>) -> (plan: Result<RenderingPlan, BuildError>)
    ensures
        match plan {
            Ok(plan) => build_failure(structure@) is None && plan@ == plan_of(structure@),
            Err(error) => build_failure(structure@) == Some(error),
        },
{
    let kept = match filter_out_skipped_fields(structure) {
        Ok(kept) => kept,
        Err(error) => {
            return Err(error);
        },
    };
    let ghost all = kept@;
    let total = kept.len();
    let mut variants: Vec<VariantPlan> = Vec::new();
    let mut index: usize = 0;
    for shape in it: kept.into_iter()
        invariant
            it.seq() == all,
            all.len() == total,
            index == it.index(),
            build_failure(structure@) is None,
            all.len() == structure@.len(),
            forall|v: int| 0 <= v < all.len() ==> is_without_skipped(#[trigger] all[v], structure@[v]),
            variants@.len() == index,
            forall|v: int| 0 <= v < index ==> (#[trigger] variants@[v])@ == structure@[v].plan(),
    {
        proof {
            assert(is_without_skipped(all[index as int], structure@[index as int]));
            lemma_no_failure_in_variant(structure@, index as int);
            lemma_filter_keeps_actions(structure@[index as int].fields@, index as int);
        }
        match plan_variant(shape, index) {
            Err(error) => {
                return Err(error);
            },
            Ok(variant) => {
                variants.push(variant);
            },
        }
        index += 1;
    }
    let plan = RenderingPlan { variants };
    proof {
        assert(plan@ =~= plan_of(structure@));
    }
    Ok(plan)
}

} // verus!
