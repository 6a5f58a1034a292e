use semantic_pdf_diff::document::PdfDocument;
use semantic_pdf_diff::tagged::{TaggedParentTreeEntry, TaggedRoleMapEntry};
use semantic_pdf_diff::types::{ObjectId, ParseConfig};

fn minimal_pdf() -> &'static [u8] {
    b"%PDF-1.7
1 0 obj
<< /Type /Catalog /Pages 2 0 R >>
endobj
2 0 obj
<< /Type /Pages /Kids [3 0 R] /Count 1 >>
endobj
3 0 obj
<< /Type /Page /Parent 2 0 R /Contents 4 0 R >>
endobj
4 0 obj
<< /Length 38 >>
stream
BT /F1 12 Tf 72 720 Td (Hello) Tj ET
endstream
endobj
"
}

fn tagged_pdf() -> &'static [u8] {
    b"%PDF-1.7
1 0 obj
<< /Type /Catalog /Pages 2 0 R /StructTreeRoot 6 0 R >>
endobj
2 0 obj
<< /Type /Pages /Kids [3 0 R] /Count 1 >>
endobj
3 0 obj
<< /Type /Page /Parent 2 0 R /Contents 4 0 R /StructParents 0 >>
endobj
4 0 obj
<< /Length 66 >>
stream
BT /H1 << /MCID 0 >> BDC (Title) Tj EMC /P << /MCID 1 >> BDC (Body) Tj EMC ET
endstream
endobj
6 0 obj
<< /Type /StructTreeRoot /K [7 0 R 8 0 R] /ParentTree << /Nums [0 [7 0 R 8 0 R]] >> >>
endobj
7 0 obj
<< /Type /StructElem /S /H1 /P 6 0 R /K 0 >>
endobj
8 0 obj
<< /Type /StructElem /S /P /P 6 0 R /K 1 >>
endobj
"
}

fn tagged_role_map_pdf() -> &'static [u8] {
    b"%PDF-1.7
1 0 obj
<< /Type /Catalog /Pages 2 0 R /StructTreeRoot 6 0 R >>
endobj
2 0 obj
<< /Type /Pages /Kids [3 0 R] /Count 1 >>
endobj
3 0 obj
<< /Type /Page /Parent 2 0 R /Contents 4 0 R /StructParents 0 >>
endobj
4 0 obj
<< /Length 49 >>
stream
BT /ChapterTitle << /MCID 0 >> BDC (Title) Tj EMC ET
endstream
endobj
6 0 obj
<< /Type /StructTreeRoot /K [7 0 R] /RoleMap << /ChapterTitle /H1 >> >>
endobj
7 0 obj
<< /Type /StructElem /S /ChapterTitle /P 6 0 R /K 0 >>
endobj
"
}

fn id(number: u32) -> ObjectId {
    ObjectId { number, generation: 0 }
}

#[test]
fn parses_simple_tagged_structure_tree() {
    let document = PdfDocument::parse(tagged_pdf()).expect("tagged fixture should parse");
    let structure = document.tagged_structure(ParseConfig::default());

    assert_eq!(
        structure.root_object_id,
        Some(ObjectId {
            number: 6,
            generation: 0
        })
    );
    assert_eq!(structure.roots.len(), 2);
    assert_eq!(structure.roots[0].structure_type, "H1");
    assert_eq!(structure.roots[0].mcids, vec![0]);
    assert_eq!(structure.roots[1].structure_type, "P");
    assert_eq!(structure.roots[1].mcids, vec![1]);
    assert_eq!(
        structure.parent_tree,
        vec![TaggedParentTreeEntry {
            struct_parent: 0,
            element_object_ids: vec![
                ObjectId {
                    number: 7,
                    generation: 0
                },
                ObjectId {
                    number: 8,
                    generation: 0
                }
            ],
        }]
    );
    assert!(structure.diagnostics.is_empty());
}

#[test]
fn parses_tagged_role_map_and_applies_mapped_structure_type() {
    let document = PdfDocument::parse(tagged_role_map_pdf()).expect("tagged role-map fixture should parse");
    let structure = document.tagged_structure(ParseConfig::default());

    assert_eq!(
        structure.role_map,
        vec![TaggedRoleMapEntry {
            source: "ChapterTitle".to_owned(),
            target: "H1".to_owned(),
        }]
    );
    assert_eq!(structure.roots.len(), 1);
    assert_eq!(structure.roots[0].structure_type, "ChapterTitle");
    assert_eq!(structure.roots[0].mapped_structure_type.as_deref(), Some("H1"));
    assert_eq!(structure.roots[0].mcids, vec![0]);
    assert!(structure.diagnostics.is_empty());
}

#[test]
fn reports_missing_tagged_structure_as_empty_summary() {
    let document = PdfDocument::parse(minimal_pdf()).expect("fixture should parse");
    let structure = document.tagged_structure(ParseConfig::default());

    assert_eq!(structure.root_object_id, None);
    assert!(structure.roots.is_empty());
    assert!(structure.parent_tree.is_empty());
    assert!(structure.diagnostics.is_empty());
}

fn structure_of(objects: &str) -> semantic_pdf_diff::tagged::TaggedStructure {
    let text = format!(
        "%PDF-1.7\n1 0 obj\n<< /Type /Catalog /Pages 2 0 R /StructTreeRoot 6 0 R >>\nendobj\n2 0 obj\n<< /Type /Pages /Kids [3 0 R] /Count 1 >>\nendobj\n3 0 obj\n<< /Type /Page /Parent 2 0 R /Contents 4 0 R >>\nendobj\n4 0 obj\n<< /Length 5 >>\nstream\nHello\nendstream\nendobj\n{objects}"
    );
    let document = PdfDocument::parse(text.as_bytes()).expect("fixture should parse");
    document.tagged_structure(ParseConfig::default())
}

#[test]
fn tagged_structure_reports_cycles_once_and_stops() {
    let structure = structure_of(
        "6 0 obj\n<< /Type /StructTreeRoot /K 7 0 R >>\nendobj\n7 0 obj\n<< /S /Sect /K 6 0 R >>\nendobj\n",
    );
    assert_eq!(structure.roots.len(), 1);
    assert_eq!(structure.roots[0].structure_type, "Sect");
    assert!(structure.roots[0].children.is_empty());
    assert_eq!(structure.diagnostics.len(), 1);
    assert_eq!(structure.diagnostics[0].code, "TAGGED_STRUCTURE_CYCLE");
    assert_eq!(structure.diagnostics[0].message, "tagged structure contains a cycle at object 6");
    assert_eq!(structure.diagnostics[0].object, Some(id(6)));
}

#[test]
fn tagged_structure_reports_missing_elements() {
    let structure = structure_of("6 0 obj\n<< /Type /StructTreeRoot /K [9 0 R 7 0 R] >>\nendobj\n7 0 obj\n<< /S /P /K [3 -1] >>\nendobj\n");
    assert_eq!(structure.roots.len(), 1);
    assert_eq!(structure.roots[0].structure_type, "P");
    assert_eq!(structure.roots[0].mcids, vec![3]);
    assert_eq!(structure.roots[0].mapped_structure_type, None);
    assert_eq!(structure.diagnostics.len(), 1);
    assert_eq!(structure.diagnostics[0].code, "TAGGED_STRUCTURE_MISSING_OBJECT");
    assert_eq!(structure.diagnostics[0].message, "tagged structure references missing object 9");
}

#[test]
fn tagged_structure_nests_children_and_marked_content_references() {
    let structure = structure_of(
        "6 0 obj\n<< /Type /StructTreeRoot /K 7 0 R >>\nendobj\n7 0 obj\n<< /S /Table /K [8 0 R << /Type /MCR /MCID 4 >>] >>\nendobj\n8 0 obj\n<< /S /TR /K << /S /TD /K 5 >> >>\nendobj\n",
    );
    assert_eq!(structure.roots.len(), 1);
    let table = &structure.roots[0];
    assert_eq!(table.object_id, Some(id(7)));
    assert_eq!(table.mcids, vec![4]);
    assert_eq!(table.children.len(), 1);
    let row = &table.children[0];
    assert_eq!(row.structure_type, "TR");
    assert_eq!(row.object_id, Some(id(8)));
    assert_eq!(row.children.len(), 1);
    assert_eq!(row.children[0].structure_type, "TD");
    assert_eq!(row.children[0].object_id, None);
    assert_eq!(row.children[0].mcids, vec![5]);
    assert!(structure.diagnostics.is_empty());
}

#[test]
fn role_map_is_sorted_and_free_of_repeats_and_reports_non_names() {
    let structure = structure_of(
        "6 0 obj\n<< /Type /StructTreeRoot /K 7 0 R /RoleMap << /Zed /P /Alpha /H1 /Bad 5 /Same /Same >> >>\nendobj\n7 0 obj\n<< /S /Same /K 0 >>\nendobj\n",
    );
    assert_eq!(
        structure.role_map,
        vec![
            TaggedRoleMapEntry { source: "Alpha".to_owned(), target: "H1".to_owned() },
            TaggedRoleMapEntry { source: "Same".to_owned(), target: "Same".to_owned() },
            TaggedRoleMapEntry { source: "Zed".to_owned(), target: "P".to_owned() },
        ]
    );
    assert_eq!(structure.roots[0].mapped_structure_type, None);
    assert_eq!(structure.diagnostics.len(), 1);
    assert_eq!(structure.diagnostics[0].code, "TAGGED_ROLE_MAP_MALFORMED");
    assert_eq!(structure.diagnostics[0].message, "tagged /RoleMap entry /Bad does not map to a name");
}

#[test]
fn parent_tree_is_sorted_by_key_and_keeps_first_entry_per_key() {
    let structure = structure_of(
        "6 0 obj\n<< /Type /StructTreeRoot /ParentTree << /Nums [2 7 0 R 1 [8 0 R 9 0 R] -1 7 0 R 3 [5] ] /Kids [10 0 R 11 0 R] >> >>\nendobj\n10 0 obj\n<< /Nums [1 12 0 R 0 13 0 R 4] >>\nendobj\n",
    );
    assert_eq!(
        structure.parent_tree,
        vec![
            TaggedParentTreeEntry { struct_parent: 0, element_object_ids: vec![id(13)] },
            TaggedParentTreeEntry { struct_parent: 1, element_object_ids: vec![id(8), id(9)] },
            TaggedParentTreeEntry { struct_parent: 2, element_object_ids: vec![id(7)] },
        ]
    );
    assert_eq!(structure.diagnostics.len(), 1);
    assert_eq!(structure.diagnostics[0].code, "TAGGED_PARENT_TREE_MISSING_OBJECT");
    assert_eq!(structure.diagnostics[0].message, "tagged parent tree references missing object 11");
}

#[test]
fn non_reference_struct_tree_root_is_reported() {
    let text = "%PDF-1.7\n1 0 obj\n<< /Type /Catalog /Pages 2 0 R /StructTreeRoot << /K 0 >> >>\nendobj\n2 0 obj\n<< /Type /Pages /Kids [] /Count 0 >>\nendobj\n";
    let document = PdfDocument::parse(text.as_bytes()).expect("fixture should parse");
    let structure = document.tagged_structure(ParseConfig::default());
    assert_eq!(structure.root_object_id, None);
    assert_eq!(structure.diagnostics.len(), 1);
    assert_eq!(structure.diagnostics[0].code, "TAGGED_STRUCTURE_MALFORMED");
    assert_eq!(structure.diagnostics[0].object, Some(id(1)));
}
