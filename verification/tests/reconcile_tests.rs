use read_image_scope_xml::doc::{
    Annotation, AnnotationAttributes, Annotations, AttributeHeader, Region,
    RegionAttributeHeaders, RegionAttributes, RegionAttributesAttribute, Regions,
};
use read_image_scope_xml::emit::{csv_header, emit_rows, process_document, warning_message};
use read_image_scope_xml::reconcile::{reconcile, SlotKind, Warning};

fn region(id: &str, text: &str, input_region_id: Option<&str>, image_location: Option<&str>,
    attrs: Option<Vec<(&str, &str)>>) -> Region {
    Region {
        id: id.to_string(),
        region_type: "0".to_string(),
        length: "0".to_string(),
        area: "0".to_string(),
        length_microns: "0".to_string(),
        area_microns: "0".to_string(),
        text: text.to_string(),
        negative_roa: "0".to_string(),
        analyze: "1".to_string(),
        attributes: RegionAttributes {
            attribute: attrs.map(|list| {
                list.into_iter()
                    .map(|(name, value)| RegionAttributesAttribute {
                        name: name.to_string(),
                        id: "0".to_string(),
                        value: value.to_string(),
                        display_color: "0".to_string(),
                    })
                    .collect()
            }),
        },
        image_location: image_location.map(|s| s.to_string()),
        input_region_id: input_region_id.map(|s| s.to_string()),
    }
}

fn layer(id: &str, annotation_type: &str, headers: Option<Vec<(&str, &str)>>,
    regions: Vec<Region>) -> Annotation {
    Annotation {
        id: id.to_string(),
        name: "Layer".to_string(),
        annotation_type: annotation_type.to_string(),
        attributes: AnnotationAttributes { attribute: None },
        regions: Regions {
            region_attribute_headers: RegionAttributeHeaders {
                attribute_header: headers.map(|list| {
                    list.into_iter()
                        .map(|(hid, name)| AttributeHeader {
                            id: hid.to_string(),
                            name: name.to_string(),
                        })
                        .collect()
                }),
            },
            region: regions,
        },
    }
}

fn document(layers: Vec<Annotation>) -> Annotations {
    Annotations { microns_per_pixel: "0.5".to_string(), annotation: layers }
}

fn full_headers() -> Vec<(&'static str, &'static str)> {
    vec![
        ("A", "Positivity = NPositive/NTotal"),
        ("B", "Np  = number positive"),
        ("C", "Nwp = number weak positive"),
        ("D", "Nsp = number strong positive"),
        ("E", "NTotal = total number"),
    ]
}

#[test]
fn empty_document_emits_no_rows() {
    let doc = document(vec![]);
    let (entries, warnings) = reconcile(&doc);
    assert!(entries.is_empty());
    assert!(warnings.is_empty());
    let rows = emit_rows("empty.xml", &entries);
    assert!(rows.is_empty());
}

#[test]
fn header_row_text() {
    assert_eq!(
        csv_header(),
        "Filename,Slide Name,Region ID,text label,positivity,num weak positive,num positive,num strong positive,num all positive,num total"
    );
}

#[test]
fn full_scenario_row() {
    let doc = document(vec![
        layer("L4", "4", None, vec![region("1", "Tumor", None, None, None)]),
        layer(
            "L3",
            "3",
            Some(full_headers()),
            vec![region(
                "c1",
                "",
                Some("1"),
                None,
                Some(vec![("A", "0.42"), ("B", "100"), ("C", "10"), ("D", "5"), ("E", "500")]),
            )],
        ),
    ]);
    let (entries, warnings) = reconcile(&doc);
    assert!(warnings.is_empty());
    let rows = emit_rows("slide1.xml", &entries);
    assert_eq!(rows.len(), 1);
    assert_eq!(rows[0], "slide1.xml,slide1.svs,1,Tumor,0.42,10,100,5,115,500");
}

#[test]
fn drawn_region_without_statistics_still_emits_a_row() {
    let doc = document(vec![layer("L4", "4", None, vec![region("9", "Stroma", None, None, None)])]);
    let (entries, warnings) = reconcile(&doc);
    assert!(warnings.is_empty());
    let rows = emit_rows("s.xml", &entries);
    assert_eq!(rows.len(), 1);
    assert_eq!(rows[0], "s.xml,s.svs,9,Stroma,NaN,0,0,0,0,0");
}

#[test]
fn back_reference_merges_into_one_row() {
    let doc = document(vec![
        layer("L4", "4", None, vec![region("7", "Lesion", None, None, None)]),
        layer(
            "L3",
            "3",
            Some(full_headers()),
            vec![region("computed", "", Some("7"), None, Some(vec![("E", "50")]))],
        ),
    ]);
    let (entries, _) = reconcile(&doc);
    assert_eq!(entries.len(), 1);
    assert_eq!(entries[0].id, "7");
    let rows = emit_rows("s.xml", &entries);
    assert_eq!(rows[0], "s.xml,s.svs,7,Lesion,NaN,0,0,0,0,50");
}

#[test]
fn total_positive_sums_missing_as_zero() {
    let doc = document(vec![layer(
        "L3",
        "3",
        Some(full_headers()),
        vec![region("c", "", Some("2"), None, Some(vec![("C", "1.5"), ("B", "2")]))],
    )]);
    let (entries, _) = reconcile(&doc);
    let rows = emit_rows("t.xml", &entries);
    assert_eq!(rows[0], "t.xml,t.svs,2,,NaN,1.5,2,0,3.5,0");
}

#[test]
fn missing_strong_positive_header_skips_layer() {
    let headers = vec![
        ("A", "Positivity = NPositive/NTotal"),
        ("B", "Np  = number positive"),
        ("C", "Nwp = number weak positive"),
        ("E", "NTotal = total number"),
    ];
    let doc = document(vec![
        layer("L4", "4", None, vec![region("1", "Tumor", None, None, None)]),
        layer(
            "L3",
            "3",
            Some(headers),
            vec![region("c", "", Some("1"), None, Some(vec![("B", "100")]))],
        ),
    ]);
    let (entries, warnings) = reconcile(&doc);
    assert_eq!(warnings.len(), 1);
    match &warnings[0] {
        Warning::MissingSlot { slot } => assert_eq!(*slot, SlotKind::StrongPositive),
        other => panic!("unexpected warning {:?}", other),
    }
    assert_eq!(
        warning_message(&warnings[0], "slide1.xml"),
        "Missing number strong positive in slide1.xml"
    );
    let rows = emit_rows("slide1.xml", &entries);
    assert_eq!(rows.len(), 1);
    assert_eq!(rows[0], "slide1.xml,slide1.svs,1,Tumor,NaN,0,0,0,0,0");
}

#[test]
fn second_analysis_layer_warns_and_wins() {
    let doc = document(vec![
        layer("L4", "4", None, vec![region("1", "Tumor", None, None, None)]),
        layer(
            "first",
            "3",
            Some(full_headers()),
            vec![region("a", "", Some("1"), None, Some(vec![("E", "100")]))],
        ),
        layer(
            "second",
            "3",
            Some(full_headers()),
            vec![region("b", "", Some("1"), None, Some(vec![("E", "999")]))],
        ),
    ]);
    let (entries, warnings) = reconcile(&doc);
    assert_eq!(warnings.len(), 2);
    match &warnings[0] {
        Warning::MultipleAnalysisLayers { layer_id } => assert_eq!(layer_id, "second"),
        other => panic!("unexpected warning {:?}", other),
    }
    match &warnings[1] {
        Warning::OverwriteNumTotal => {}
        other => panic!("unexpected warning {:?}", other),
    }
    let rows = emit_rows("s.xml", &entries);
    assert_eq!(rows[0], "s.xml,s.svs,1,Tumor,NaN,0,0,0,0,999");
}

#[test]
fn missing_header_list_skips_layer_with_warning() {
    let doc = document(vec![layer(
        "L3",
        "3",
        None,
        vec![region("c", "", Some("1"), None, Some(vec![("A", "0.5")]))],
    )]);
    let (entries, warnings) = reconcile(&doc);
    assert!(entries.is_empty());
    assert_eq!(warnings.len(), 1);
    match &warnings[0] {
        Warning::MissingHeaderList { layer_id } => assert_eq!(layer_id, "L3"),
        other => panic!("unexpected warning {:?}", other),
    }
    assert_eq!(
        warning_message(&warnings[0], "f.xml"),
        "In f.xml: Type 3 annotation layer L3 is missing Region Attribute header"
    );
}

#[test]
fn missing_back_reference_skips_region_with_warning() {
    let doc = document(vec![layer(
        "L3",
        "3",
        Some(full_headers()),
        vec![region("c", "", None, None, Some(vec![("E", "5")]))],
    )]);
    let (entries, warnings) = reconcile(&doc);
    assert!(entries.is_empty());
    assert_eq!(warnings.len(), 1);
    match &warnings[0] {
        Warning::MissingBackReference { region_id } => assert_eq!(region_id, "c"),
        other => panic!("unexpected warning {:?}", other),
    }
}

#[test]
fn relabeling_a_region_warns_and_last_label_wins() {
    let doc = document(vec![
        layer("A", "4", None, vec![region("1", "First", None, None, None)]),
        layer("B", "4", None, vec![region("1", "Second", None, None, None)]),
    ]);
    let (entries, warnings) = reconcile(&doc);
    assert_eq!(warnings.len(), 1);
    match &warnings[0] {
        Warning::OverwriteTextLabel => {}
        other => panic!("unexpected warning {:?}", other),
    }
    assert_eq!(
        warning_message(&warnings[0], "f.xml"),
        "Warning: Over-writing region text label"
    );
    let rows = emit_rows("f.xml", &entries);
    assert_eq!(rows[0], "f.xml,f.svs,1,Second,NaN,0,0,0,0,0");
}

#[test]
fn unparseable_value_renders_as_unset() {
    let doc = document(vec![layer(
        "L3",
        "3",
        Some(full_headers()),
        vec![region("c", "", Some("1"), None, Some(vec![("A", "n/a"), ("E", "bad")]))],
    )]);
    let (entries, warnings) = reconcile(&doc);
    assert!(warnings.is_empty());
    let rows = emit_rows("u.xml", &entries);
    assert_eq!(rows[0], "u.xml,u.svs,1,,NaN,0,0,0,0,0");
}

#[test]
fn labels_are_trimmed() {
    let doc = document(vec![layer("L4", "4", None, vec![region("1", "  Edge \t", None, None,
        None)])]);
    let (entries, _) = reconcile(&doc);
    let rows = emit_rows("w.xml", &entries);
    assert_eq!(rows[0], "w.xml,w.svs,1,Edge,NaN,0,0,0,0,0");
}

#[test]
fn attribute_values_are_trimmed_before_parsing() {
    let doc = document(vec![layer(
        "L3",
        "3",
        Some(full_headers()),
        vec![region("c", "", Some("1"), None, Some(vec![("E", "  500 ")]))],
    )]);
    let (entries, _) = reconcile(&doc);
    let rows = emit_rows("v.xml", &entries);
    assert_eq!(rows[0], "v.xml,v.svs,1,,NaN,0,0,0,0,500");
}

#[test]
fn rows_are_sorted_by_region_identifier() {
    let doc = document(vec![layer(
        "L4",
        "4",
        None,
        vec![
            region("beta", "B", None, None, None),
            region("alpha", "A", None, None, None),
            region("10", "Ten", None, None, None),
            region("2", "Two", None, None, None),
        ],
    )]);
    let (entries, _) = reconcile(&doc);
    let ids: Vec<&str> = entries.iter().map(|e| e.id.as_str()).collect();
    assert_eq!(ids, vec!["10", "2", "alpha", "beta"]);
}

#[test]
fn image_location_keeps_basename_only() {
    let doc = document(vec![layer(
        "L3",
        "3",
        Some(full_headers()),
        vec![region("c", "", Some("1"), Some("slides/out/region1.jpg"), None)],
    )]);
    let (entries, _) = reconcile(&doc);
    assert_eq!(entries.len(), 1);
    assert_eq!(entries[0].info.image_location.as_deref(), Some("region1.jpg"));
}

#[test]
fn empty_image_location_creates_no_record() {
    let doc = document(vec![layer(
        "L3",
        "3",
        Some(full_headers()),
        vec![region("c", "", Some("1"), Some(""), None)],
    )]);
    let (entries, warnings) = reconcile(&doc);
    assert!(entries.is_empty());
    assert!(warnings.is_empty());
}

#[test]
fn other_layer_types_are_ignored() {
    let doc = document(vec![layer("L9", "9", None, vec![region("1", "X", None, None, None)])]);
    let (entries, warnings) = reconcile(&doc);
    assert!(entries.is_empty());
    assert!(warnings.is_empty());
}

#[test]
fn repeated_runs_give_identical_output() {
    let make = || {
        document(vec![
            layer("L4", "4", None, vec![
                region("1", "Tumor", None, None, None),
                region("2", "Stroma", None, None, None),
            ]),
            layer(
                "L3",
                "3",
                Some(full_headers()),
                vec![region("c", "", Some("1"), None, Some(vec![("A", "0.25"), ("E", "400")]))],
            ),
        ])
    };
    let (e1, w1) = reconcile(&make());
    let (e2, w2) = reconcile(&make());
    let r1 = emit_rows("same.xml", &e1);
    let r2 = emit_rows("same.xml", &e2);
    assert_eq!(r1, r2);
    assert_eq!(w1.len(), w2.len());
    let m1: Vec<String> = w1.iter().map(|w| warning_message(w, "same.xml")).collect();
    let m2: Vec<String> = w2.iter().map(|w| warning_message(w, "same.xml")).collect();
    assert_eq!(m1, m2);
}

#[test]
fn process_document_combines_rows_and_warnings() {
    let doc = document(vec![
        layer("L4", "4", None, vec![region("1", "Tumor", None, None, None)]),
        layer(
            "L3",
            "3",
            Some(full_headers()),
            vec![region(
                "c1",
                "",
                Some("1"),
                None,
                Some(vec![("A", "0.42"), ("B", "100"), ("C", "10"), ("D", "5"), ("E", "500")]),
            )],
        ),
    ]);
    let (rows, warnings) = process_document(&doc, "slide1.xml");
    assert!(warnings.is_empty());
    assert_eq!(rows, vec!["slide1.xml,slide1.svs,1,Tumor,0.42,10,100,5,115,500".to_string()]);
}
