use lisa::cntg::{get_core_dir_name, get_core_path, seed_file_name, CNTGProgram};

fn program(n: usize, batch: usize) -> CNTGProgram {
    let files = (0..n).map(|i| format!("p{i}.cc")).collect();
    CNTGProgram::new(files, batch, "zlib".to_string(), "#include <zlib.h>".to_string())
}

#[test]
fn ten_programs_in_batches_of_four() {
    let cores = program(10, 4).synthesis();
    assert_eq!(cores.len(), 3);
    let sizes: Vec<usize> = cores.iter().map(|c| c.members.len()).collect();
    assert_eq!(sizes, vec![4, 4, 2]);
    assert_eq!(cores[2].members, vec![8, 9]);
    assert_eq!(cores[1].core_id, 1);
}

#[test]
fn batch_of_zero_fuses_everything() {
    let cores = program(5, 0).synthesis();
    assert_eq!(cores.len(), 1);
    assert_eq!(cores[0].members, vec![0, 1, 2, 3, 4]);
    assert!(program(0, 3).synthesis().is_empty());
}

#[test]
fn core_source_declares_and_calls_members() {
    let src = program(2, 2).synthesis_batch(2);
    let expected = "#include <zlib.h>\n\nint test_zlib_api_sequence_0();\nint test_zlib_api_sequence_1();\n\n\nint main(int argc, char* argv[])\n{\n\tstd::cout << \"Running program 0...\" << std::endl;\n\ttest_zlib_api_sequence_0();\n\tstd::cout << \"Running program 1...\" << std::endl;\n\ttest_zlib_api_sequence_1();\n\treturn 0;\n}\n";
    assert_eq!(src, expected);
}

#[test]
fn members_get_distinct_entry_names() {
    let p = program(3, 3);
    let body = "int test_zlib_api_sequence() { return 66; }";
    let a = p.change_driver_id(body, 0);
    let b = p.change_driver_id(body, 11);
    assert_eq!(a, "int test_zlib_api_sequence_0() { return 66; }");
    assert_eq!(b, "int test_zlib_api_sequence_11() { return 66; }");
    assert_ne!(a, b);
}

#[test]
fn file_and_directory_names() {
    assert_eq!(get_core_dir_name(7), "Core_007");
    assert_eq!(get_core_dir_name(1234), "Core_1234");
    assert_eq!(seed_file_name(42), "id_000042.cc");
    assert_eq!(get_core_path("out/Core_000"), "out/Core_000/core");
}
