use fuenfzehn::Pattern;

#[test]
fn creates_patter_in_order() {
    let mut p = Pattern::new(4);
    println!("{:#?}", p.order());
    assert!(p.is_in_order());
    p.up();
    assert!(!p.is_in_order());
}

#[test]
fn get_row() {
    let p = Pattern::new(5);
    let row = p.get_row(2);

    assert_eq!(row, Some(&[11, 12, 13, 14, 15][..]));
}

#[test]
fn shuffle() {
    let mut p = Pattern::new(4);
    p.shuffle(25);
    assert!(!p.is_in_order());
}

#[test]
fn up() {
    let mut p = Pattern::new(4);
    assert_eq!(p.order()[15], 16);
    p.up();
    assert_eq!(p.order()[11], 16);
    assert_eq!(p.order()[15], 12);
    p.up();
    assert_eq!(p.order()[7], 16);
    p.up();
    p.up();
    p.up();
    p.up();
    p.up();
    assert_eq!(p.order()[3], 16);
}

#[test]
fn down() {
    let mut p = Pattern::new(4);
    p.up();
    p.up();
    p.down();
    assert_eq!(p.order()[11], 16);
    p.down();
    assert!(p.is_in_order());
}

#[test]
fn left() {
    let mut p = Pattern::new(4);
    assert_eq!(p.order()[15], 16);
    p.left();
    assert_eq!(p.order()[14], 16);
    assert_eq!(p.order()[15], 15);
    p.left();
    assert_eq!(p.order()[13], 16);
    p.left();
    p.left();
    p.left();
    p.left();
    p.left();
    assert_eq!(p.order()[12], 16);
}

#[test]
fn right() {
    let mut p = Pattern::new(4);
    p.left();
    p.left();
    p.right();
    assert_eq!(p.order()[14], 16);
    p.right();
    assert!(p.is_in_order());
}
