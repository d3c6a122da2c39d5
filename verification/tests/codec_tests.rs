use wasm_names::builder::{Identity, ValueTypeBuilder, ValueTypesBuilder};
use wasm_names::index_map::IndexMap;
use wasm_names::io::{Cursor, Error};
use wasm_names::module::{CodeSection, FuncBody, FunctionSection, FunctionType, ImportSection,
    Local, Module, Section, Type, TypeSection, ValueType};
use wasm_names::name_section::{FunctionNameSubsection, LocalNameSubsection, ModuleNameSubsection,
    NameMap, NameSection};
use wasm_names::primitives::{VarUint32, VarUint64, VarUint7};

// A helper for the tests: serialize a section and return its bytes.
fn serialize_test(original: NameSection) -> Vec<u8> {
    let mut buffer = vec![];
    original.serialize(&mut buffer).expect("serialize error");
    buffer
}

fn module_with_function_space(n: u32) -> Module {
    Module::new(vec![Section::Import(ImportSection { functions: n })])
}

#[test]
fn serialize_module_name() {
    let module_name_subsection = ModuleNameSubsection::new("my_mod");
    let original = NameSection::new(Some(module_name_subsection), None, None);
    serialize_test(original);
}

#[test]
fn serialize_function_names() {
    let mut function_name_subsection = FunctionNameSubsection::default();
    function_name_subsection.names_mut().insert(0, "hello_world".to_string());
    let name_section = NameSection::new(None, Some(function_name_subsection), None);
    serialize_test(name_section);
}

#[test]
fn serialize_local_names() {
    let mut local_name_subsection = LocalNameSubsection::default();
    let mut locals = NameMap::default();
    locals.insert(0, "msg".to_string());
    local_name_subsection.local_names_mut().insert(0, locals);

    let name_section = NameSection::new(None, None, Some(local_name_subsection));
    serialize_test(name_section);
}

#[test]
fn serialize_all_subsections() {
    let module_name_subsection = ModuleNameSubsection::new("ModuleNameSubsection");

    let mut function_name_subsection = FunctionNameSubsection::default();
    function_name_subsection.names_mut().insert(0, "foo".to_string());
    function_name_subsection.names_mut().insert(1, "bar".to_string());

    let mut local_name_subsection = LocalNameSubsection::default();
    let mut locals = NameMap::default();
    locals.insert(0, "msg1".to_string());
    locals.insert(1, "msg2".to_string());
    local_name_subsection.local_names_mut().insert(0, locals);

    let name_section = NameSection::new(
        Some(module_name_subsection),
        Some(function_name_subsection),
        Some(local_name_subsection),
    );
    serialize_test(name_section);
}

#[test]
fn deserialize_invalid_name_section() {
    let invalid = {
        let mut invalid = Vec::new();
        VarUint7::from(u8::MAX).serialize(&mut invalid).unwrap();
        VarUint32::from(u32::MAX).serialize(&mut invalid).unwrap();
        invalid.extend_from_slice(&[0; 1024]);
        invalid
    };

    let module = Module::new(Vec::new());

    let mut cur = Cursor::new(invalid.as_slice());

    let result = NameSection::deserialize(&module, &mut cur);

    assert!(matches!(&result, Err(Error::UnexpectedEof)), "{result:?}");
}

#[test]
fn round_trip_module_name() {
    let original = NameSection::new(Some(ModuleNameSubsection::new("my_mod")), None, None);
    let bytes = serialize_test(original.clone());
    let module = Module::new(Vec::new());
    let mut cur = Cursor::new(bytes);
    let decoded = NameSection::deserialize(&module, &mut cur).unwrap();
    assert_eq!(decoded.module().unwrap().name(), "my_mod");
    assert!(decoded.functions().is_none());
    assert!(decoded.locals().is_none());
    assert_eq!(decoded, original);
}

#[test]
fn round_trip_function_names_respects_function_space() {
    let mut function_name_subsection = FunctionNameSubsection::default();
    function_name_subsection.names_mut().insert(0, "foo".to_string());
    function_name_subsection.names_mut().insert(1, "bar".to_string());
    let original = NameSection::new(None, Some(function_name_subsection), None);
    let bytes = serialize_test(original.clone());

    let big_enough = module_with_function_space(2);
    let mut cur = Cursor::new(bytes.as_slice());
    let decoded = NameSection::deserialize(&big_enough, &mut cur).unwrap();
    assert_eq!(decoded, original);

    let too_small = module_with_function_space(1);
    let mut cur = Cursor::new(bytes.as_slice());
    let result = NameSection::deserialize(&too_small, &mut cur);
    assert_eq!(result.unwrap_err(), Error::InvalidData);
}

#[test]
fn round_trip_local_names() {
    let module = Module::new(vec![
        Section::Import(ImportSection { functions: 1 }),
        Section::Type(TypeSection {
            types: vec![Type::Function(FunctionType { params: vec![ValueType::I32] })],
        }),
        Section::Function(FunctionSection { entries: vec![0] }),
        Section::Code(CodeSection {
            bodies: vec![FuncBody {
                locals: vec![Local { count: 1, value_type: ValueType::I64 }],
            }],
        }),
    ]);

    let mut local_name_subsection = LocalNameSubsection::default();
    let mut locals = NameMap::default();
    locals.insert(0, "msg1".to_string());
    locals.insert(1, "msg2".to_string());
    local_name_subsection.local_names_mut().insert(1, locals);
    let original = NameSection::new(None, None, Some(local_name_subsection));

    let bytes = serialize_test(original.clone());
    let mut cur = Cursor::new(bytes);
    let decoded = NameSection::deserialize(&module, &mut cur).unwrap();
    assert_eq!(decoded, original);
}

#[test]
fn round_trip_all_subsections() {
    let module = Module::new(vec![
        Section::Import(ImportSection { functions: 2 }),
        Section::Type(TypeSection {
            types: vec![Type::Function(FunctionType {
                params: vec![ValueType::I32, ValueType::F64],
            })],
        }),
        Section::Code(CodeSection {
            bodies: vec![FuncBody { locals: vec![Local { count: 3, value_type: ValueType::F32 }] }],
        }),
    ]);

    let mut function_name_subsection = FunctionNameSubsection::default();
    function_name_subsection.names_mut().insert(0, "foo".to_string());
    function_name_subsection.names_mut().insert(1, "bar".to_string());

    let mut local_name_subsection = LocalNameSubsection::default();
    let mut locals = NameMap::default();
    locals.insert(0, "msg1".to_string());
    locals.insert(4, "msg2".to_string());
    local_name_subsection.local_names_mut().insert(0, locals);

    let original = NameSection::new(
        Some(ModuleNameSubsection::new("all")),
        Some(function_name_subsection),
        Some(local_name_subsection),
    );
    let bytes = serialize_test(original.clone());
    let mut cur = Cursor::new(bytes);
    let decoded = NameSection::deserialize(&module, &mut cur).unwrap();
    assert_eq!(decoded, original);
}

#[test]
fn round_trip_non_ascii_name() {
    let original = NameSection::new(Some(ModuleNameSubsection::new("héllo☃")), None, None);
    let bytes = serialize_test(original.clone());
    let module = Module::new(Vec::new());
    let mut cur = Cursor::new(bytes);
    let decoded = NameSection::deserialize(&module, &mut cur).unwrap();
    assert_eq!(decoded.module().unwrap().name(), "héllo☃");
}

#[test]
fn out_of_bounds_index_rejected() {
    let mut function_name_subsection = FunctionNameSubsection::default();
    function_name_subsection.names_mut().insert(5, "high".to_string());
    let original = NameSection::new(None, Some(function_name_subsection), None);
    let bytes = serialize_test(original);

    let module = module_with_function_space(2);
    let mut cur = Cursor::new(bytes);
    let result = NameSection::deserialize(&module, &mut cur);
    assert_eq!(result.unwrap_err(), Error::InvalidData);
}

#[test]
fn duplicate_index_rejected() {
    // Function-name subsection: count 2, both entries under index 0.
    let payload = vec![2u8, 0, 1, b'a', 0, 1, b'b'];
    let mut bytes = vec![1u8, payload.len() as u8];
    bytes.extend_from_slice(&payload);

    let module = module_with_function_space(1);
    let mut cur = Cursor::new(bytes);
    let result = NameSection::deserialize(&module, &mut cur);
    assert_eq!(result.unwrap_err(), Error::InvalidData);
}

#[test]
fn duplicate_subsection_rejected() {
    let one = serialize_test(NameSection::new(Some(ModuleNameSubsection::new("m")), None, None));
    let mut twice = one.clone();
    twice.extend_from_slice(&one);

    let module = Module::new(Vec::new());
    let mut cur = Cursor::new(twice);
    let result = NameSection::deserialize(&module, &mut cur);
    assert_eq!(result.unwrap_err(), Error::InvalidData);
}

#[test]
fn duplicate_function_subsection_rejected() {
    let mut function_name_subsection = FunctionNameSubsection::default();
    function_name_subsection.names_mut().insert(0, "foo".to_string());
    let one = serialize_test(NameSection::new(None, Some(function_name_subsection), None));
    let mut twice = one.clone();
    twice.extend_from_slice(&one);

    let module = module_with_function_space(1);
    let mut cur = Cursor::new(twice);
    let result = NameSection::deserialize(&module, &mut cur);
    assert_eq!(result.unwrap_err(), Error::InvalidData);
}

#[test]
fn skip_safety_truncated_unknown_subsection() {
    // Unknown tag 0x7F declaring 1024 payload bytes, with only 10 present.
    let mut bytes = vec![0x7Fu8, 0x80, 0x08];
    bytes.extend_from_slice(&[0u8; 10]);

    let module = Module::new(Vec::new());
    let mut cur = Cursor::new(bytes);
    let result = NameSection::deserialize(&module, &mut cur);
    assert_eq!(result.unwrap_err(), Error::UnexpectedEof);
}

#[test]
fn unknown_subsection_skipped() {
    // Unknown tag 0x7F with 3 payload bytes, then a module name.
    let mut bytes = vec![0x7Fu8, 3, 9, 9, 9];
    let name_part = serialize_test(NameSection::new(
        Some(ModuleNameSubsection::new("after")),
        None,
        None,
    ));
    bytes.extend_from_slice(&name_part);

    let module = Module::new(Vec::new());
    let mut cur = Cursor::new(bytes);
    let decoded = NameSection::deserialize(&module, &mut cur).unwrap();
    assert_eq!(decoded.module().unwrap().name(), "after");
}

#[test]
fn subsection_size_must_match_body() {
    // Module-name subsection whose declared size lies about its body.
    let bytes = vec![0u8, 10, 1, b'a'];
    let module = Module::new(Vec::new());
    let mut cur = Cursor::new(bytes);
    let result = NameSection::deserialize(&module, &mut cur);
    assert_eq!(result.unwrap_err(), Error::InvalidData);
}

#[test]
fn invalid_utf8_name_rejected() {
    // Module-name subsection holding two bytes that are not UTF-8.
    let bytes = vec![0u8, 3, 2, 0xFF, 0xFE];
    let module = Module::new(Vec::new());
    let mut cur = Cursor::new(bytes);
    let result = NameSection::deserialize(&module, &mut cur);
    assert_eq!(result.unwrap_err(), Error::InvalidData);
}

#[test]
fn empty_input_gives_empty_section() {
    let module = Module::new(Vec::new());
    let mut cur = Cursor::new(Vec::new());
    let decoded = NameSection::deserialize(&module, &mut cur).unwrap();
    assert!(decoded.module().is_none());
    assert!(decoded.functions().is_none());
    assert!(decoded.locals().is_none());
}

#[test]
fn varuint32_known_encoding() {
    let mut bytes = Vec::new();
    VarUint32::from(624485).serialize(&mut bytes).unwrap();
    assert_eq!(bytes, vec![0xE5, 0x8E, 0x26]);

    let mut cur = Cursor::new(bytes);
    assert_eq!(VarUint32::deserialize(&mut cur).unwrap().value(), 624485);
}

#[test]
fn varuint32_max_value_round_trips() {
    let mut bytes = Vec::new();
    VarUint32::from(u32::MAX).serialize(&mut bytes).unwrap();
    assert_eq!(bytes, vec![0xFF, 0xFF, 0xFF, 0xFF, 0x0F]);

    let mut cur = Cursor::new(bytes);
    assert_eq!(VarUint32::deserialize(&mut cur).unwrap().value(), u32::MAX);
}

#[test]
fn varuint32_sixth_byte_rejected() {
    let bytes = vec![0x80u8, 0x80, 0x80, 0x80, 0x80, 0x00];
    let mut cur = Cursor::new(bytes);
    assert_eq!(VarUint32::deserialize(&mut cur).unwrap_err(), Error::InvalidData);
}

#[test]
fn varuint32_truncated_reports_eof() {
    let bytes = vec![0x80u8, 0x80];
    let mut cur = Cursor::new(bytes);
    assert_eq!(VarUint32::deserialize(&mut cur).unwrap_err(), Error::UnexpectedEof);
}

#[test]
fn varuint64_round_trips_large_value() {
    let mut bytes = Vec::new();
    VarUint64::from(u64::MAX).serialize(&mut bytes).unwrap();
    assert_eq!(bytes.len(), 10);
    let mut cur = Cursor::new(bytes);
    assert_eq!(VarUint64::deserialize(&mut cur).unwrap().value(), u64::MAX);
}

#[test]
fn varuint64_eleventh_byte_rejected() {
    let bytes = vec![0x80u8; 11];
    let mut cur = Cursor::new(bytes);
    assert_eq!(VarUint64::deserialize(&mut cur).unwrap_err(), Error::InvalidData);
}

#[test]
fn varuint7_rejects_continuation_bit() {
    let mut cur = Cursor::new(vec![0x90u8]);
    assert_eq!(VarUint7::deserialize(&mut cur).unwrap_err(), Error::InvalidData);

    let mut cur = Cursor::new(vec![0x41u8]);
    assert_eq!(VarUint7::deserialize(&mut cur).unwrap().value(), 0x41);
}

#[test]
fn index_map_keeps_ascending_order() {
    let mut map: IndexMap<String> = IndexMap::new();
    map.insert(7, "seven".to_string());
    map.insert(2, "two".to_string());
    map.insert(4, "four".to_string());
    let keys: Vec<u32> = map.entries().iter().map(|e| e.0).collect();
    assert_eq!(keys, vec![2, 4, 7]);
    assert!(map.contains_key(4));
    assert!(!map.contains_key(3));

    let prev = map.insert(4, "vier".to_string());
    assert_eq!(prev, Some("four".to_string()));
    assert_eq!(map.len(), 3);
}

#[test]
fn functions_space_counts_imports_and_definitions() {
    let module = Module::new(vec![
        Section::Import(ImportSection { functions: 2 }),
        Section::Function(FunctionSection { entries: vec![0, 0, 1] }),
    ]);
    assert_eq!(module.functions_space(), 5);
}

#[test]
fn value_type_builder_passes_choice_through() {
    assert_eq!(ValueTypeBuilder::with_callback(Identity).i32(), ValueType::I32);
    assert_eq!(ValueTypeBuilder::with_callback(Identity).float64(), ValueType::F64);
}

#[test]
fn value_types_builder_collects_in_order() {
    let types = ValueTypesBuilder::with_callback(Identity).i32().float32().i64().build();
    assert_eq!(types, vec![ValueType::I32, ValueType::F32, ValueType::I64]);
}
