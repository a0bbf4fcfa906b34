//! How the JavaScript formatter lays out an element `${ ... }` of a
//! template literal: whether the expression stays on one line, whether it is
//! indented inside the braces, and at which indention it is written.
//!
//! The syntax tree and the document that the formatter builds are not held
//! here: an element is described by the facts about it that the layout
//! depends on.

use vstd::prelude::*;

verus! {

/// How the expression of a template element is laid out.
#[derive(Clone, Copy, Debug, PartialEq, Eq, Structural)]
pub enum TemplateElementLayout {
    /// Tries to format the expression on a single line regardless of the print width.
    SingleLine,
    /// Tries to format the expression on a single line but may break the
    /// expression if the line otherwise exceeds the print width.
    Fit,
}

/// The expression of a template element, as far as its layout tells
/// expressions apart.
#[derive(Clone, Copy, Debug, PartialEq, Eq, Structural)]
pub enum TemplateExpressionKind {
    StaticMember,
    ComputedMember,
    Conditional,
    Sequence,
    As,
    Satisfies,
    Binary,
    Logical,
    Instanceof,
    In,
    Identifier,
    Array,
    Other,
}

/// The indention at which a template element starts, for the tab width in
/// use: whole indention levels, and the spaces of alignment after them.
#[derive(Clone, Copy, Debug, Default, PartialEq, Eq, Structural)]
pub struct TemplateElementIndention {
    pub level: usize,
    pub align: u8,
}

/// The options of a template element.
#[derive(Clone, Copy, Debug, Default, PartialEq, Eq, Structural)]
pub struct TemplateElementOptions {
    /// The indention to use for this element
    pub indention: TemplateElementIndention,
    /// Does the last template chunk (text element) end with a new line?
    pub after_new_line: bool,
}

/// A template element: `${ expression }` in JavaScript, or `${ type }` in a
/// TypeScript template literal type.
#[derive(Clone, Copy, Debug, PartialEq, Eq, Structural)]
pub struct AnyTemplateElement {
    /// The expression of a JavaScript element; `None` for a TypeScript
    /// element, or where the expression is missing.
    pub expression: Option<TemplateExpressionKind>,
    /// Whether a line break occurs in the leading trivia of a token of the element.
    pub has_new_line_in_range: bool,
}

/// Where the formatted element is written.
#[derive(Clone, Copy, Debug, PartialEq, Eq, Structural)]
pub enum IndentionPlacement {
    /// The text before the element ends with a line break: the element is
    /// dedented to the root.
    DedentToRoot,
    /// At the current indention.
    Unchanged,
    /// Dedented to the root, then indented by `level` levels and aligned by
    /// `align` spaces (no alignment when `align` is 0).
    Indented { level: usize, align: u8 },
}

/// The layout of a formatted template element.
#[derive(Clone, Copy, Debug, PartialEq, Eq, Structural)]
pub struct TemplateElementPlan {
    /// A JavaScript array expression is formatted in flat mode.
    pub force_flat: bool,
    pub layout: TemplateElementLayout,
    /// The expression is put in a soft block indent inside `${` and `}`.
    pub indent: bool,
    pub placement: IndentionPlacement,
}

/// The layout of an element: on a single line unless the element holds a
/// line break or its expression will break.
pub open spec fn layout_of(has_new_line_in_range: bool, will_break: bool) -> TemplateElementLayout {
    if !has_new_line_in_range && !will_break {
        TemplateElementLayout::SingleLine
    } else {
        TemplateElementLayout::Fit
    }
}

/// The expressions that are rather broken after `${` and before `}` than in
/// their middle.
pub open spec fn breaks_around(kind: TemplateExpressionKind) -> bool {
    !(kind == TemplateExpressionKind::Array || kind == TemplateExpressionKind::Other)
}

/// The expressions that are indented inside `${` and `}` in the Fit
/// layout, listed one by one: member accesses, conditionals, sequences,
/// `as` and `satisfies`, binary and logical expressions, `instanceof`, `in`
/// and identifiers.
pub open spec fn is_indented_kind(kind: TemplateExpressionKind) -> bool {
    match kind {
        TemplateExpressionKind::StaticMember => true,
        TemplateExpressionKind::ComputedMember => true,
        TemplateExpressionKind::Conditional => true,
        TemplateExpressionKind::Sequence => true,
        TemplateExpressionKind::As => true,
        TemplateExpressionKind::Satisfies => true,
        TemplateExpressionKind::Binary => true,
        TemplateExpressionKind::Logical => true,
        TemplateExpressionKind::Instanceof => true,
        TemplateExpressionKind::In => true,
        TemplateExpressionKind::Identifier => true,
        TemplateExpressionKind::Array => false,
        TemplateExpressionKind::Other => false,
    }
}

/// The expressions broken around rather than in their middle are exactly
/// the listed ones: all but arrays and other expressions.
pub proof fn law_breaks_around_the_listed_kinds(kind: TemplateExpressionKind)
    ensures
        breaks_around(kind) == is_indented_kind(kind),
        breaks_around(TemplateExpressionKind::StaticMember),
        breaks_around(TemplateExpressionKind::ComputedMember),
        breaks_around(TemplateExpressionKind::Conditional),
        breaks_around(TemplateExpressionKind::Sequence),
        breaks_around(TemplateExpressionKind::As),
        breaks_around(TemplateExpressionKind::Satisfies),
        breaks_around(TemplateExpressionKind::Binary),
        breaks_around(TemplateExpressionKind::Logical),
        breaks_around(TemplateExpressionKind::Instanceof),
        breaks_around(TemplateExpressionKind::In),
        breaks_around(TemplateExpressionKind::Identifier),
        !breaks_around(TemplateExpressionKind::Array),
        !breaks_around(TemplateExpressionKind::Other),
{
}

/// The placement of an element written with `indention`.
pub open spec fn placement_of(level: usize, align: u8) -> IndentionPlacement {
    if level == 0 && align == 0 {
        IndentionPlacement::Unchanged
    } else {
        IndentionPlacement::Indented { level, align }
    }
}

/// The layout of a template element.
pub fn template_element_layout(has_new_line_in_range: bool, will_break: bool) -> (layout: TemplateElementLayout)
    ensures
        layout == layout_of(has_new_line_in_range, will_break),
{
    if !has_new_line_in_range {
        // make sure the expression won't break to prevent reformat issue
        if will_break {
            TemplateElementLayout::Fit
        } else {
            TemplateElementLayout::SingleLine
        }
    } else {
        TemplateElementLayout::Fit
    }
}

/// Whether the expression is indented inside `${` and `}`: when the inner
/// syntax has comments, or for the expressions that are rather broken
/// around than in their middle.
pub fn should_indent(has_comments: bool, expression: Option<TemplateExpressionKind>) -> (indent: bool)
    ensures
        indent == (has_comments || (expression matches Some(kind) && breaks_around(kind))),
        indent == (has_comments || (expression matches Some(kind) && is_indented_kind(kind))),
{
    has_comments || match expression {
        Some(kind) => match kind {
            TemplateExpressionKind::Array => false,
            TemplateExpressionKind::Other => false,
            _ => true,
        },
        None => false,
    }
}

/// Where content written with `indention` goes: unchanged at level 0
/// without alignment, else dedented to the root and indented again.
pub fn write_with_indention(indention: TemplateElementIndention) -> (placement: IndentionPlacement)
    ensures
        placement == placement_of(indention.level, indention.align),
{
    let level = indention.level;
    let spaces = indention.align;
    if level == 0 && spaces == 0 {
        return IndentionPlacement::Unchanged;
    }
    IndentionPlacement::Indented { level, align: spaces }
}

/// Formats a template element with its options.
pub struct FormatTemplateElement {
    pub element: AnyTemplateElement,
    pub options: TemplateElementOptions,
}

impl FormatTemplateElement {
    pub fn new(element: AnyTemplateElement, options: TemplateElementOptions) -> (f: Self)
        ensures
            f.element == element,
            f.options == options,
    {
        Self { element, options }
    }

    /// The layout of the element, given whether its formatted expression
    /// will break and whether its inner syntax has comments.
    pub fn fmt(&self, will_break: bool, has_comments: bool) -> (plan: TemplateElementPlan)
        ensures
            plan.force_flat == (self.element.expression == Some(TemplateExpressionKind::Array)),
            plan.layout == layout_of(self.element.has_new_line_in_range, will_break),
            plan.indent == (plan.layout == TemplateElementLayout::Fit
                && (has_comments || (self.element.expression matches Some(kind) && breaks_around(kind)))),
            plan.indent == (plan.layout == TemplateElementLayout::Fit
                && (has_comments || (self.element.expression matches Some(kind) && is_indented_kind(kind)))),
            !self.element.has_new_line_in_range && !will_break ==> plan.layout == TemplateElementLayout::SingleLine
                && !plan.indent,
            self.element.has_new_line_in_range || will_break ==> plan.layout == TemplateElementLayout::Fit,
            self.options.after_new_line ==> plan.placement == IndentionPlacement::DedentToRoot,
            !self.options.after_new_line && self.options.indention.level == 0 && self.options.indention.align == 0
                ==> plan.placement == IndentionPlacement::Unchanged,
            !self.options.after_new_line && (self.options.indention.level != 0 || self.options.indention.align != 0)
                ==> plan.placement == (IndentionPlacement::Indented {
                    level: self.options.indention.level,
                    align: self.options.indention.align,
                }),
            plan.placement == if self.options.after_new_line {
                IndentionPlacement::DedentToRoot
            } else {
                placement_of(self.options.indention.level, self.options.indention.align)
            },
    {
        let force_flat = match self.element.expression {
            Some(TemplateExpressionKind::Array) => true,
            _ => false,
        };
        let layout = template_element_layout(self.element.has_new_line_in_range, will_break);
        let indent = match layout {
            TemplateElementLayout::SingleLine => false,
            TemplateElementLayout::Fit => should_indent(has_comments, self.element.expression),
        };
        let placement = if self.options.after_new_line {
            IndentionPlacement::DedentToRoot
        } else {
            write_with_indention(self.options.indention)
        };
        TemplateElementPlan { force_flat, layout, indent, placement }
    }
}

} // verus!
