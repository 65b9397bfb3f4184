//! The directives of one field and the rules for combining them.
//!
//! A directive has two independent axes: whether the field is left out
//! ([`SkipMode`]) and how an included field is rendered ([`DebugFormat`]).
//! On each axis at most one source may say something other than the default;
//! a second one is a conflict, even where both say the same.

use vstd::prelude::*;
use syn::ExprPath;

verus! {

/// A path to a function that the caller supplies, such as `Option::is_none`.
/// The directives carry such a path along and never look inside it.
#[verifier::external_type_specification]
#[verifier::external_body]
pub struct ExExprPath(syn::ExprPath);

/// Cloning a path gives the same path: `Clone` for `syn::ExprPath` clones the
/// attributes, the qualified self type and the segments one by one.
pub assume_specification[ <syn::ExprPath as Clone>::clone ](path: &syn::ExprPath) -> (copy: syn::ExprPath)
    ensures
        copy == *path,
;

/// Whether a field is left out of the rendered record.
#[derive(Debug, PartialEq, Eq)]
pub enum SkipMode {
    /// The field is always rendered.
    Default,
    /// The field is left out whenever the function at this path, applied to
    /// the field's value, returns `true`.
    Condition(ExprPath),
    /// The field is never rendered.
    Always,
}

/// How an included field is rendered.
#[derive(Debug, PartialEq, Eq)]
pub enum DebugFormat {
    /// The field's value renders itself.
    Default,
    /// The field's value is substituted into this template.
    Format(String),
    /// The function at this path renders the field's value.
    With(ExprPath),
}

/// The directive of one field: one value on each axis.
#[derive(Debug, PartialEq, Eq)]
pub struct FieldAttributes {
    pub skip_mode: SkipMode,
    pub debug_format: DebugFormat,
}

/// The axis on which two directives both say something other than the
/// default.
#[derive(Debug, Clone, Copy, PartialEq, Eq, Structural)]
pub enum ConflictError {
    /// Both sides decide whether the field is left out.
    OmissionConflict,
    /// Both sides decide how the field is rendered.
    RenderingConflict,
}

impl ConflictError {
    /// The text of the diagnostic for this conflict.
    pub open spec fn message_text(self) -> Seq<char> {
        match self {
            ConflictError::OmissionConflict => "Conflicting skip options"@,
            ConflictError::RenderingConflict => "Conflicting format options"@,
        }
    }

    /// The diagnostic for this conflict.
    pub fn message(&self) -> (text: String)
        ensures
            text@ == self.message_text(),
    {
        match self {
            ConflictError::OmissionConflict => "Conflicting skip options".to_string(),
            ConflictError::RenderingConflict => "Conflicting format options".to_string(),
        }
    }
}

impl SkipMode {
    /// The two values merged: the default gives way to the other side, and
    /// two values other than the default conflict.
    pub open spec fn combine(self, other: Self) -> Result<Self, ConflictError> {
        if self is Default {
            Ok(other)
        } else if other is Default {
            Ok(self)
        } else {
            Err(ConflictError::OmissionConflict)
        }
    }

    /// Merges two values of the omission axis.
    pub fn try_combine(self, other: Self) -> (merged: Result<Self, ConflictError>)
        ensures
            merged == self.combine(other),
    {
        match (self, other) {
            (SkipMode::Default, other) => Ok(other),
            (this, SkipMode::Default) => Ok(this),
            _ => Err(ConflictError::OmissionConflict),
        }
    }

    /// Whether this is the default: the field is always rendered.
    pub fn is_default(&self) -> (default: bool)
        ensures
            default == (*self is Default),
    {
        match self {
            SkipMode::Default => true,
            _ => false,
        }
    }

    /// Whether the field is never rendered.
    pub fn is_always(&self) -> (always: bool)
        ensures
            always == (*self is Always),
    {
        match self {
            SkipMode::Always => true,
            _ => false,
        }
    }
}

impl Clone for SkipMode {
    fn clone(&self) -> (copy: Self)
        ensures
            copy == *self,
    {
        match self {
            SkipMode::Default => SkipMode::Default,
            SkipMode::Condition(path) => SkipMode::Condition(path.clone()),
            SkipMode::Always => SkipMode::Always,
        }
    }
}

impl Default for SkipMode {
    fn default() -> (mode: Self)
        ensures
            mode == SkipMode::Default,
    {
        SkipMode::Default
    }
}

impl DebugFormat {
    /// The two values merged: the default gives way to the other side, and
    /// two values other than the default conflict.
    pub open spec fn combine(self, other: Self) -> Result<Self, ConflictError> {
        if self is Default {
            Ok(other)
        } else if other is Default {
            Ok(self)
        } else {
            Err(ConflictError::RenderingConflict)
        }
    }

    /// Merges two values of the rendering axis.
    pub fn try_combine(self, other: Self) -> (merged: Result<Self, ConflictError>)
        ensures
            merged == self.combine(other),
    {
        match (self, other) {
            (DebugFormat::Default, other) => Ok(other),
            (this, DebugFormat::Default) => Ok(this),
            _ => Err(ConflictError::RenderingConflict),
        }
    }
}

impl DebugFormat {
    /// Whether this is the default: the field's value renders itself.
    pub fn is_default(&self) -> (default: bool)
        ensures
            default == (*self is Default),
    {
        match self {
            DebugFormat::Default => true,
            _ => false,
        }
    }
}

impl Clone for DebugFormat {
    fn clone(&self) -> (copy: Self)
        ensures
            copy == *self,
    {
        match self {
            DebugFormat::Default => DebugFormat::Default,
            DebugFormat::Format(template) => DebugFormat::Format(template.clone()),
            DebugFormat::With(path) => DebugFormat::With(path.clone()),
        }
    }
}

impl Default for DebugFormat {
    fn default() -> (format: Self)
        ensures
            format == DebugFormat::Default,
    {
        DebugFormat::Default
    }
}

impl FieldAttributes {
    /// The directive that says nothing: always rendered, by the value itself.
    pub open spec fn default_attributes() -> Self {
        FieldAttributes { skip_mode: SkipMode::Default, debug_format: DebugFormat::Default }
    }

    /// The two directives merged axis by axis. Two directives have no order
    /// between their axes, so where they conflict on both, the conflict
    /// returned is the one on the omission axis.
    pub open spec fn combine(self, other: Self) -> Result<Self, ConflictError> {
        match self.skip_mode.combine(other.skip_mode) {
            Err(conflict) => Err(conflict),
            Ok(skip_mode) => match self.debug_format.combine(other.debug_format) {
                Err(conflict) => Err(conflict),
                Ok(debug_format) => Ok(FieldAttributes { skip_mode, debug_format }),
            },
        }
    }

    /// Merges two directives.
    pub fn try_combine(self, other: Self) -> (merged: Result<Self, ConflictError>)
        ensures
            merged == self.combine(other),
    {
        let skip_mode = self.skip_mode.try_combine(other.skip_mode)?;
        let debug_format = self.debug_format.try_combine(other.debug_format)?;

        Ok(FieldAttributes { skip_mode, debug_format })
    }
}

impl Clone for FieldAttributes {
    fn clone(&self) -> (copy: Self)
        ensures
            copy == *self,
    {
        FieldAttributes {
            skip_mode: self.skip_mode.clone(),
            debug_format: self.debug_format.clone(),
        }
    }
}

impl Default for FieldAttributes {
    fn default() -> (attributes: Self)
        ensures
            attributes == FieldAttributes::default_attributes(),
    {
        FieldAttributes { skip_mode: SkipMode::Default, debug_format: DebugFormat::Default }
    }
}

/// The directives of `directives` combined from left to right, starting from
/// the default; the first conflict where one occurs.
pub open spec fn combine_all(directives: Seq<FieldAttributes>) -> Result<FieldAttributes, ConflictError>
    decreases directives.len(),
{
    if directives.len() == 0 {
        Ok(FieldAttributes::default_attributes())
    } else {
        match combine_all(directives.drop_last()) {
            Err(conflict) => Err(conflict),
            Ok(combined) => combined.combine(directives.last()),
        }
    }
}

/// The default is an identity of combining on both sides: on the omission
/// axis, on the rendering axis, and for whole directives.
pub proof fn lemma_default_is_identity(x: FieldAttributes)
    ensures
        SkipMode::Default.combine(x.skip_mode) == Ok::<SkipMode, ConflictError>(x.skip_mode),
        x.skip_mode.combine(SkipMode::Default) == Ok::<SkipMode, ConflictError>(x.skip_mode),
        DebugFormat::Default.combine(x.debug_format) == Ok::<DebugFormat, ConflictError>(x.debug_format),
        x.debug_format.combine(DebugFormat::Default) == Ok::<DebugFormat, ConflictError>(x.debug_format),
        FieldAttributes::default_attributes().combine(x) == Ok::<FieldAttributes, ConflictError>(x),
        x.combine(FieldAttributes::default_attributes()) == Ok::<FieldAttributes, ConflictError>(x),
{
}

/// Two values of one axis that are both other than the default conflict,
/// also where they are equal, and the conflict is that of their axis. Two
/// directives conflict exactly where they do so on an axis; where they do on
/// both, the conflict returned is the one on the omission axis.
pub proof fn lemma_second_setting_conflicts(x: FieldAttributes, y: FieldAttributes)
    ensures
        !(x.skip_mode is Default) && !(y.skip_mode is Default) ==> x.skip_mode.combine(y.skip_mode) == Err::<
            SkipMode,
            ConflictError,
        >(ConflictError::OmissionConflict),
        !(x.debug_format is Default) && !(y.debug_format is Default) ==> x.debug_format.combine(
            y.debug_format,
        ) == Err::<DebugFormat, ConflictError>(ConflictError::RenderingConflict),
        x.combine(y) == Err::<FieldAttributes, ConflictError>(ConflictError::OmissionConflict) <==> !(x.skip_mode
            is Default) && !(y.skip_mode is Default),
        x.combine(y) == Err::<FieldAttributes, ConflictError>(ConflictError::RenderingConflict) <==> (
        x.skip_mode is Default || y.skip_mode is Default) && !(x.debug_format is Default) && !(y.debug_format
            is Default),
{
}

/// Combining is associative on each axis: grouping three values to the left
/// or to the right gives the same value or the same conflict. For whole
/// directives the two groupings give the same directive or both fail.
pub proof fn lemma_combine_is_associative(x: FieldAttributes, y: FieldAttributes, z: FieldAttributes)
    ensures
        (match x.skip_mode.combine(y.skip_mode) {
            Ok(xy) => xy.combine(z.skip_mode),
            Err(conflict) => Err(conflict),
        }) == (match y.skip_mode.combine(z.skip_mode) {
            Ok(yz) => x.skip_mode.combine(yz),
            Err(conflict) => Err(conflict),
        }),
        (match x.debug_format.combine(y.debug_format) {
            Ok(xy) => xy.combine(z.debug_format),
            Err(conflict) => Err(conflict),
        }) == (match y.debug_format.combine(z.debug_format) {
            Ok(yz) => x.debug_format.combine(yz),
            Err(conflict) => Err(conflict),
        }),
        ({
            let left = match x.combine(y) {
                Ok(xy) => xy.combine(z),
                Err(conflict) => Err(conflict),
            };
            let right = match y.combine(z) {
                Ok(yz) => x.combine(yz),
                Err(conflict) => Err(conflict),
            };
            if left is Ok {
                left == right
            } else {
                right is Err
            }
        }),
{
}

/// Folding a single directive gives that directive.
pub proof fn lemma_combine_all_of_one(a: FieldAttributes)
    ensures
        combine_all(seq![a]) == Ok::<FieldAttributes, ConflictError>(a),
{
    let one = seq![a];
    assert(one.drop_last() =~= Seq::<FieldAttributes>::empty());
    assert(combine_all(one.drop_last()) == Ok::<FieldAttributes, ConflictError>(
        FieldAttributes::default_attributes(),
    ));
    assert(one.last() == a);
    lemma_default_is_identity(a);
}

/// Folding a sequence of directives gives the same as folding its first
/// `split` ones into one directive and then folding that one with the rest;
/// where the first ones conflict, the whole sequence fails with their
/// conflict.
pub proof fn lemma_combine_all_regroups(directives: Seq<FieldAttributes>, split: int)
    requires
        0 <= split <= directives.len(),
    ensures
        combine_all(directives) == (match combine_all(directives.take(split)) {
            Ok(first) => combine_all(seq![first] + directives.skip(split)),
            Err(conflict) => Err(conflict),
        }),
    decreases directives.len(),
{
    if split == directives.len() {
        assert(directives.take(split) =~= directives);
        assert(directives.skip(split) =~= Seq::<FieldAttributes>::empty());
        if let Ok(first) = combine_all(directives) {
            assert(seq![first] + directives.skip(split) =~= seq![first]);
            lemma_combine_all_of_one(first);
        }
    } else {
        let shorter = directives.drop_last();
        lemma_combine_all_regroups(shorter, split);
        assert(shorter.take(split) =~= directives.take(split));
        if let Ok(first) = combine_all(directives.take(split)) {
            let regrouped = seq![first] + directives.skip(split);
            assert(regrouped.len() > 0);
            assert(regrouped.drop_last() =~= seq![first] + shorter.skip(split));
            assert(regrouped.last() == directives.last());
        }
    }
}

/// Folding `[a, b, c]` gives the same as folding `[ab, c]` where `a` and `b`
/// combine to `ab`, and fails with their conflict where they do not combine.
pub proof fn lemma_combine_all_of_three(a: FieldAttributes, b: FieldAttributes, c: FieldAttributes)
    ensures
        combine_all(seq![a, b, c]) == (match a.combine(b) {
            Ok(ab) => combine_all(seq![ab, c]),
            Err(conflict) => Err(conflict),
        }),
{
    let all = seq![a, b, c];
    lemma_combine_all_regroups(all, 2);
    let first = all.take(2);
    assert(first =~= seq![a, b]);
    assert(first.drop_last() =~= seq![a]);
    lemma_combine_all_of_one(a);
    assert(combine_all(first) == a.combine(b));
    if let Ok(ab) = a.combine(b) {
        assert(seq![ab] + all.skip(2) =~= seq![ab, c]);
    }
}

} // verus!
