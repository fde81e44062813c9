use wasm_migrate::benchmarks::Benchmarks;

#[test]
fn kernels_have_index_twelve_but_for_doitgen() {
    let list = Benchmarks::new().benchmarks;
    assert_eq!(list.len(), 29);
    assert_eq!(list[0].name, "2mm");
    assert_eq!(list[12].name, "floyd-warshall");
    assert_eq!(list[28].name, "trmm");
    for info in &list {
        let expected: u32 = if info.name == "doitgen" { 10 } else { 12 };
        assert_eq!(info.func_index, expected);
    }
}
