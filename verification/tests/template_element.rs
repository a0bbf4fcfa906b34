use biome_text::js_program::{program_kind, ModuleKind, ProgramKind};
use biome_text::template_element::{
    should_indent, template_element_layout, write_with_indention, AnyTemplateElement,
    FormatTemplateElement, IndentionPlacement, TemplateElementIndention, TemplateElementLayout,
    TemplateElementOptions, TemplateExpressionKind,
};

#[test]
fn an_element_stays_on_one_line_unless_it_breaks() {
    assert_eq!(template_element_layout(false, false), TemplateElementLayout::SingleLine);
    assert_eq!(template_element_layout(false, true), TemplateElementLayout::Fit);
    assert_eq!(template_element_layout(true, false), TemplateElementLayout::Fit);
    assert_eq!(template_element_layout(true, true), TemplateElementLayout::Fit);
}

#[test]
fn member_and_binary_expressions_are_indented() {
    assert!(should_indent(false, Some(TemplateExpressionKind::StaticMember)));
    assert!(should_indent(false, Some(TemplateExpressionKind::Binary)));
    assert!(should_indent(false, Some(TemplateExpressionKind::Identifier)));
    assert!(!should_indent(false, Some(TemplateExpressionKind::Other)));
    assert!(!should_indent(false, Some(TemplateExpressionKind::Array)));
    assert!(!should_indent(false, None));
    assert!(should_indent(true, None));
}

#[test]
fn indention_places_the_element() {
    assert_eq!(
        write_with_indention(TemplateElementIndention { level: 0, align: 0 }),
        IndentionPlacement::Unchanged
    );
    assert_eq!(
        write_with_indention(TemplateElementIndention { level: 2, align: 0 }),
        IndentionPlacement::Indented { level: 2, align: 0 }
    );
    assert_eq!(
        write_with_indention(TemplateElementIndention { level: 0, align: 3 }),
        IndentionPlacement::Indented { level: 0, align: 3 }
    );
}

#[test]
fn formats_an_element() {
    let element = AnyTemplateElement {
        expression: Some(TemplateExpressionKind::Conditional),
        has_new_line_in_range: true,
    };
    let options = TemplateElementOptions {
        indention: TemplateElementIndention { level: 1, align: 2 },
        after_new_line: false,
    };
    let format = FormatTemplateElement::new(element, options);
    let plan = format.fmt(false, false);
    assert!(!plan.force_flat);
    assert_eq!(plan.layout, TemplateElementLayout::Fit);
    assert!(plan.indent);
    assert_eq!(plan.placement, IndentionPlacement::Indented { level: 1, align: 2 });

    let array = FormatTemplateElement::new(
        AnyTemplateElement { expression: Some(TemplateExpressionKind::Array), has_new_line_in_range: false },
        TemplateElementOptions { after_new_line: true, ..TemplateElementOptions::default() },
    );
    let plan = array.fmt(false, true);
    assert!(plan.force_flat);
    assert_eq!(plan.layout, TemplateElementLayout::SingleLine);
    assert!(!plan.indent);
    assert_eq!(plan.placement, IndentionPlacement::DedentToRoot);
}

#[test]
fn the_root_of_a_program() {
    assert_eq!(program_kind(ModuleKind::Script, false), ProgramKind::JsScript);
    assert_eq!(program_kind(ModuleKind::Script, true), ProgramKind::JsScript);
    assert_eq!(program_kind(ModuleKind::Module, false), ProgramKind::JsModule);
    assert_eq!(program_kind(ModuleKind::Module, true), ProgramKind::TsDeclarationModule);
}
