use custom_debug::{
    build, field_action, filter_out_skipped_fields, plan_variant, record_style, BuildError, DebugFormat,
    FieldAction, FieldAttributes, FieldRef, FieldShape, FieldsKind, Fragment, MergeError, RecordStyle, RenderingPlan, SkipMode, VariantPlan, VariantShape,
};
use syn::ExprPath;

fn path(text: &str) -> ExprPath {
    syn::parse_str(text).unwrap()
}

fn skip() -> Fragment {
    Fragment::Skip
}

fn skip_if(text: &str) -> Fragment {
    Fragment::SkipIf(path(text))
}

fn format(template: &str) -> Fragment {
    Fragment::Format(template.to_string())
}

fn with(text: &str) -> Fragment {
    Fragment::With(path(text))
}

fn named(name: &str, position: usize, fragments: Vec<Fragment>) -> FieldShape {
    FieldShape { name: Some(name.to_string()), position, fragments }
}

fn unnamed(position: usize, fragments: Vec<Fragment>) -> FieldShape {
    FieldShape { name: None, position, fragments }
}

fn variant(label: &str, kind: FieldsKind, fields: Vec<FieldShape>) -> VariantShape {
    VariantShape { label: label.to_string(), kind, fields }
}

fn entry(name: &str, position: usize) -> FieldRef {
    FieldRef { name: Some(name.to_string()), position }
}

fn plain(name: &str, position: usize) -> FieldAction {
    FieldAction::Render { field: entry(name, position), format: DebugFormat::Default }
}

#[test]
fn test_default_struct() {
    let point = variant(
        "Point",
        FieldsKind::Named,
        vec![named("x", 0, vec![]), named("y", 1, vec![])],
    );
    assert_eq!(
        build(vec![point]),
        Ok(RenderingPlan {
            variants: vec![VariantPlan {
                label: "Point".to_string(),
                style: RecordStyle::Named,
                actions: vec![plain("x", 0), plain("y", 1)],
            }],
        })
    );
}

#[test]
fn test_format() {
    let point = variant(
        "Point",
        FieldsKind::Named,
        vec![named("x", 0, vec![format("{:.02}")]), named("y", 1, vec![])],
    );
    assert_eq!(
        build(vec![point]),
        Ok(RenderingPlan {
            variants: vec![VariantPlan {
                label: "Point".to_string(),
                style: RecordStyle::Named,
                actions: vec![
                    FieldAction::Render {
                        field: entry("x", 0),
                        format: DebugFormat::Format("{:.02}".to_string()),
                    },
                    plain("y", 1),
                ],
            }],
        })
    );
}

#[test]
fn test_with() {
    let point = variant(
        "Point",
        FieldsKind::Named,
        vec![named("x", 0, vec![with("my_fmt")]), named("y", 1, vec![])],
    );
    assert_eq!(
        build(vec![point]),
        Ok(RenderingPlan {
            variants: vec![VariantPlan {
                label: "Point".to_string(),
                style: RecordStyle::Named,
                actions: vec![
                    FieldAction::Render { field: entry("x", 0), format: DebugFormat::With(path("my_fmt")) },
                    plain("y", 1),
                ],
            }],
        })
    );
}

#[test]
fn test_skip() {
    let point = variant(
        "Point",
        FieldsKind::Named,
        vec![named("x", 0, vec![]), named("y", 1, vec![skip()]), named("z", 2, vec![])],
    );
    assert_eq!(
        build(vec![point]),
        Ok(RenderingPlan {
            variants: vec![VariantPlan {
                label: "Point".to_string(),
                style: RecordStyle::Named,
                actions: vec![plain("x", 0), plain("z", 2)],
            }],
        })
    );
}

#[test]
fn test_enum() {
    let foo = vec![
        variant(
            "Bar",
            FieldsKind::Unnamed,
            vec![unnamed(0, vec![format("{}i32")]), unnamed(1, vec![])],
        ),
        variant("Quux", FieldsKind::Named, vec![named("x", 0, vec![]), named("y", 1, vec![])]),
    ];
    assert_eq!(
        build(foo),
        Ok(RenderingPlan {
            variants: vec![
                VariantPlan {
                    label: "Bar".to_string(),
                    style: RecordStyle::Positional,
                    actions: vec![
                        FieldAction::Render {
                            field: FieldRef { name: None, position: 0 },
                            format: DebugFormat::Format("{}i32".to_string()),
                        },
                        FieldAction::Render {
                            field: FieldRef { name: None, position: 1 },
                            format: DebugFormat::Default,
                        },
                    ],
                },
                VariantPlan {
                    label: "Quux".to_string(),
                    style: RecordStyle::Named,
                    actions: vec![plain("x", 0), plain("y", 1)],
                },
            ],
        })
    );
}

#[test]
fn test_bounds_on_skipped() {
    let want_debug = variant(
        "WantDebug",
        FieldsKind::Named,
        vec![named("foo", 0, vec![]), named("bar", 1, vec![skip()])],
    );
    let plan = build(vec![want_debug]).unwrap();
    // Only `foo` takes part in the record, so only `foo` has to be renderable.
    assert_eq!(plan.variants[0].required_capabilities(), vec![0]);
    assert_eq!(plan.variants.len(), 1);
    assert_eq!(plan.variants[0].label, "WantDebug");
    assert_eq!(plan.variants[0].style, RecordStyle::Named);
    assert_eq!(plan.variants[0].actions, vec![plain("foo", 0)]);
}

#[test]
fn test_bounds_on_fields_only() {
    let want_debug = variant(
        "WantDebug",
        FieldsKind::Named,
        vec![named("foo", 0, vec![]), named("bar", 1, vec![]), named("needs_debug", 2, vec![])],
    );
    let plan = build(vec![want_debug]).unwrap();
    assert_eq!(plan.variants[0].required_capabilities(), vec![0, 1, 2]);
    assert_eq!(plan.variants.len(), 1);
    assert_eq!(plan.variants[0].label, "WantDebug");
    assert_eq!(plan.variants[0].style, RecordStyle::Named);
    assert_eq!(
        plan.variants[0].actions,
        vec![plain("foo", 0), plain("bar", 1), plain("needs_debug", 2)]
    );
}

#[test]
fn condition_and_custom_renderer_go_into_one_action() {
    let foo = variant(
        "Foo",
        FieldsKind::Named,
        vec![
            named("x", 0, vec![]),
            named("y", 1, vec![Fragment::SkipIf(path("Option::is_none")), Fragment::With(path("strip_some"))]),
            named("z", 2, vec![]),
        ],
    );
    let plan = build(vec![foo]).unwrap();
    assert_eq!(
        plan.variants[0].actions,
        vec![
            plain("x", 0),
            FieldAction::ConditionalRender {
                field: entry("y", 1),
                condition: path("Option::is_none"),
                format: DebugFormat::With(path("strip_some")),
            },
            plain("z", 2),
        ]
    );
}

#[test]
fn condition_and_renderer_from_two_fragments_give_the_same_action() {
    let one = variant(
        "Foo",
        FieldsKind::Named,
        vec![named("y", 0, vec![skip_if("Option::is_none"), with("strip_some")])],
    );
    let two = variant(
        "Foo",
        FieldsKind::Named,
        vec![named("y", 0, vec![with("strip_some"), skip_if("Option::is_none")])],
    );
    assert_eq!(build(vec![one]), build(vec![two]));
}

#[test]
fn always_omitted_field_has_no_action_whatever_its_rendering() {
    for rendering in [vec![], vec![format("{}")], vec![with("f")]] {
        let mut fragments = vec![skip()];
        fragments.extend(rendering);
        let shape = variant(
            "Point",
            FieldsKind::Named,
            vec![named("x", 0, vec![]), named("y", 1, fragments)],
        );
        let plan = build(vec![shape]).unwrap();
        assert_eq!(plan.variants[0].actions, vec![plain("x", 0)]);
    }
}

#[test]
fn conflicting_omission_fragments_fail_the_build() {
    let point = variant(
        "Point",
        FieldsKind::Named,
        vec![named("x", 0, vec![]), named("y", 1, vec![skip(), skip_if("p")])],
    );
    assert_eq!(
        build(vec![point]),
        Err(BuildError {
            variant: 0,
            field: 1,
            error: MergeError::OmissionConflict { first: 0, second: 1 },
        })
    );
}

#[test]
fn the_conflict_that_comes_first_in_the_source_fails_the_build() {
    let point = variant(
        "Point",
        FieldsKind::Named,
        vec![named("y", 0, vec![format("a"), with("f"), skip(), skip_if("p")])],
    );
    assert_eq!(
        build(vec![point]),
        Err(BuildError {
            variant: 0,
            field: 0,
            error: MergeError::RenderingConflict { first: 0, second: 1 },
        })
    );
}

#[test]
fn conflicting_rendering_fragments_fail_the_build() {
    let foo = vec![
        variant("A", FieldsKind::Unit, vec![]),
        variant(
            "B",
            FieldsKind::Unnamed,
            vec![unnamed(0, vec![]), unnamed(1, vec![]), unnamed(2, vec![format("{}"), with("f")])],
        ),
    ];
    assert_eq!(
        build(foo),
        Err(BuildError {
            variant: 1,
            field: 2,
            error: MergeError::RenderingConflict { first: 0, second: 1 },
        })
    );
}

#[test]
fn invalid_fragment_fails_the_build() {
    let point = variant(
        "Point",
        FieldsKind::Named,
        vec![named("x", 0, vec![format("{}"), Fragment::Invalid])],
    );
    assert_eq!(
        build(vec![point]),
        Err(BuildError { variant: 0, field: 0, error: MergeError::InvalidFragment { position: 1 } })
    );
}

#[test]
fn the_first_failing_field_in_declaration_order_is_reported() {
    let foo = vec![
        variant(
            "A",
            FieldsKind::Named,
            vec![named("a", 0, vec![]), named("b", 1, vec![format("{}"), format("{}")])],
        ),
        variant("B", FieldsKind::Named, vec![named("c", 0, vec![skip(), skip()])]),
    ];
    assert_eq!(
        build(foo),
        Err(BuildError {
            variant: 0,
            field: 1,
            error: MergeError::RenderingConflict { first: 0, second: 1 },
        })
    );
    let foo = vec![
        variant("A", FieldsKind::Named, vec![named("a", 0, vec![])]),
        variant(
            "B",
            FieldsKind::Named,
            vec![named("c", 0, vec![skip(), skip()]), named("d", 1, vec![Fragment::Invalid])],
        ),
    ];
    assert_eq!(
        build(foo),
        Err(BuildError {
            variant: 1,
            field: 0,
            error: MergeError::OmissionConflict { first: 0, second: 1 },
        })
    );
}

#[test]
fn a_type_without_variants_has_an_empty_plan() {
    assert_eq!(build(vec![]), Ok(RenderingPlan { variants: vec![] }));
}

#[test]
fn a_unit_variant_is_a_named_record_without_entries() {
    assert_eq!(
        build(vec![variant("Unit", FieldsKind::Unit, vec![])]),
        Ok(RenderingPlan {
            variants: vec![VariantPlan {
                label: "Unit".to_string(),
                style: RecordStyle::Named,
                actions: vec![],
            }],
        })
    );
}

#[test]
fn a_variant_keeps_its_style_when_all_its_fields_are_omitted() {
    let plan = build(vec![variant(
        "Pair",
        FieldsKind::Unnamed,
        vec![unnamed(0, vec![skip()]), unnamed(1, vec![skip()])],
    )])
    .unwrap();
    assert_eq!(plan.variants[0].style, RecordStyle::Positional);
    assert_eq!(plan.variants[0].actions, vec![]);
}

#[test]
fn record_style_goes_by_the_kind_of_fields() {
    assert_eq!(record_style(FieldsKind::Named), RecordStyle::Named);
    assert_eq!(record_style(FieldsKind::Unit), RecordStyle::Named);
    assert_eq!(record_style(FieldsKind::Unnamed), RecordStyle::Positional);
}

#[test]
fn field_action_goes_by_the_omission_axis() {
    let field = entry("x", 3);
    assert_eq!(
        field_action(
            field.clone(),
            FieldAttributes {
                skip_mode: SkipMode::Default,
                debug_format: DebugFormat::Format("{}".to_string()),
            }
        ),
        Some(FieldAction::Render { field: field.clone(), format: DebugFormat::Format("{}".to_string()) })
    );
    assert_eq!(
        field_action(
            field.clone(),
            FieldAttributes { skip_mode: SkipMode::Condition(path("p")), debug_format: DebugFormat::Default }
        ),
        Some(FieldAction::ConditionalRender {
            field: field.clone(),
            condition: path("p"),
            format: DebugFormat::Default,
        })
    );
    assert_eq!(
        field_action(
            field,
            FieldAttributes { skip_mode: SkipMode::Always, debug_format: DebugFormat::With(path("f")) }
        ),
        None
    );
}

#[test]
fn plan_variant_reports_the_index_it_is_given() {
    let shape = variant(
        "B",
        FieldsKind::Named,
        vec![named("a", 0, vec![]), named("b", 1, vec![Fragment::Invalid])],
    );
    assert_eq!(
        plan_variant(shape, 7),
        Err(BuildError { variant: 7, field: 1, error: MergeError::InvalidFragment { position: 0 } })
    );
}

#[test]
fn plan_variant_leaves_out_omitted_fields() {
    let shape = variant(
        "Triple",
        FieldsKind::Unnamed,
        vec![unnamed(0, vec![skip()]), unnamed(1, vec![skip_if("p")]), unnamed(2, vec![])],
    );
    assert_eq!(
        plan_variant(shape, 0),
        Ok(VariantPlan {
            label: "Triple".to_string(),
            style: RecordStyle::Positional,
            actions: vec![
                FieldAction::ConditionalRender {
                    field: FieldRef { name: None, position: 1 },
                    condition: path("p"),
                    format: DebugFormat::Default,
                },
                FieldAction::Render { field: FieldRef { name: None, position: 2 }, format: DebugFormat::Default },
            ],
        })
    );
}

#[test]
fn filter_removes_the_fields_that_are_never_rendered() {
    let structure = vec![
        variant(
            "A",
            FieldsKind::Named,
            vec![
                named("a", 0, vec![skip()]),
                named("b", 1, vec![skip_if("p")]),
                named("c", 2, vec![format("{}"), skip()]),
                named("d", 3, vec![]),
            ],
        ),
        variant("B", FieldsKind::Unnamed, vec![unnamed(0, vec![skip()])]),
    ];
    assert_eq!(
        filter_out_skipped_fields(structure),
        Ok(vec![
            variant(
                "A",
                FieldsKind::Named,
                vec![named("b", 1, vec![skip_if("p")]), named("d", 3, vec![])],
            ),
            variant("B", FieldsKind::Unnamed, vec![]),
        ])
    );
}

#[test]
fn filter_fails_at_the_first_field_that_does_not_merge() {
    let structure = vec![
        variant("A", FieldsKind::Named, vec![named("a", 0, vec![skip()])]),
        variant(
            "B",
            FieldsKind::Named,
            vec![
                named("b", 0, vec![]),
                named("c", 1, vec![with("f"), with("g")]),
                named("d", 2, vec![skip(), skip()]),
            ],
        ),
    ];
    assert_eq!(
        filter_out_skipped_fields(structure),
        Err(BuildError {
            variant: 1,
            field: 1,
            error: MergeError::RenderingConflict { first: 0, second: 1 },
        })
    );
}

#[test]
fn plan_keeps_declaration_order() {
    let mut structure = Vec::new();
    for v in 0..4usize {
        let mut fields = Vec::new();
        for f in 0..6usize {
            let fragments = match (v + f) % 3 {
                0 => vec![],
                1 => vec![skip()],
                _ => vec![skip_if("p"), format("{}")],
            };
            fields.push(unnamed(f, fragments));
        }
        structure.push(variant(&format!("V{}", v), FieldsKind::Unnamed, fields));
    }
    let plan = build(structure).unwrap();
    assert_eq!(plan.variants.len(), 4);
    for (v, variant_plan) in plan.variants.iter().enumerate() {
        assert_eq!(variant_plan.label, format!("V{}", v));
        let positions: Vec<usize> = variant_plan
            .actions
            .iter()
            .map(|action| match action {
                FieldAction::Render { field, .. } => field.position,
                FieldAction::ConditionalRender { field, .. } => field.position,
            })
            .collect();
        let expected: Vec<usize> = (0..6usize).filter(|f| (v + f) % 3 != 1).collect();
        assert_eq!(positions, expected);
    }
}

#[test]
fn all_default_directives_give_a_plain_plan() {
    let structure = vec![
        variant("A", FieldsKind::Named, vec![named("a", 0, vec![]), named("b", 1, vec![])]),
        variant("B", FieldsKind::Unnamed, vec![unnamed(0, vec![])]),
        variant("C", FieldsKind::Unit, vec![]),
    ];
    assert_eq!(
        build(structure),
        Ok(RenderingPlan {
            variants: vec![
                VariantPlan {
                    label: "A".to_string(),
                    style: RecordStyle::Named,
                    actions: vec![plain("a", 0), plain("b", 1)],
                },
                VariantPlan {
                    label: "B".to_string(),
                    style: RecordStyle::Positional,
                    actions: vec![FieldAction::Render {
                        field: FieldRef { name: None, position: 0 },
                        format: DebugFormat::Default,
                    }],
                },
                VariantPlan { label: "C".to_string(), style: RecordStyle::Named, actions: vec![] },
            ],
        })
    );
}

#[test]
fn only_fields_rendered_by_their_value_have_to_be_renderable() {
    let shape = variant(
        "Foo",
        FieldsKind::Named,
        vec![
            named("a", 0, vec![]),
            named("b", 1, vec![skip()]),
            named("c", 2, vec![with("hex_fmt")]),
            named("d", 3, vec![format("{} things")]),
            named("e", 4, vec![skip_if("Option::is_none"), with("strip_some")]),
            named("f", 5, vec![skip_if("Option::is_none")]),
            named("g", 6, vec![skip(), format("{}")]),
        ],
    );
    let plan = build(vec![shape]).unwrap();
    assert_eq!(plan.variants[0].required_capabilities(), vec![0, 3, 5]);
}

#[test]
fn actions_tell_whether_the_value_has_to_be_renderable() {
    let field = entry("x", 4);
    assert_eq!(
        FieldAction::Render { field: field.clone(), format: DebugFormat::Default }.required_capability(),
        Some(4)
    );
    assert_eq!(
        FieldAction::Render { field: field.clone(), format: DebugFormat::Format("{}".to_string()) }
            .required_capability(),
        Some(4)
    );
    assert_eq!(
        FieldAction::Render { field: field.clone(), format: DebugFormat::With(path("f")) }
            .required_capability(),
        None
    );
    assert_eq!(
        FieldAction::ConditionalRender {
            field: field.clone(),
            condition: path("p"),
            format: DebugFormat::Default,
        }
        .required_capability(),
        Some(4)
    );
    assert_eq!(
        FieldAction::ConditionalRender { field, condition: path("p"), format: DebugFormat::With(path("f")) }
            .required_capability(),
        None
    );
}
