#[test]
fn test_color() {
    for i in 30..80 {
        let s = format!("\x1b[{}masdasdadsad\x1b[0m\n", i);
        println!("{}: {}", i, s);
    }
}
