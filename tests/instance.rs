use floorplan::geometry::Rectangle;
use floorplan::instance::{parse_instance, parse_ints};
use floorplan::wirelength::canvas_size;

#[test]
fn parses_an_instance_with_comments() {
    let text = b"# three modules\n3 2\n2 3\n4 1\r\n# between\n1 5\n0 2\n2 1 0\n".to_vec();
    let (modules, nets) = parse_instance(&text).unwrap();
    assert_eq!(modules, vec![Rectangle::new(2, 3), Rectangle::new(4, 1), Rectangle::new(1, 5)]);
    assert_eq!(nets.len(), 2);
    assert_eq!(nets[0].pins, vec![0, 2]);
    assert_eq!(nets[0].id, 0);
    assert_eq!(nets[1].pins, vec![2, 1, 0]);
    assert_eq!(nets[1].id, 1);
}

#[test]
fn malformed_instances_are_refused() {
    // a module line is missing
    assert!(parse_instance(&b"2 0\n1 1\n".to_vec()).is_none());
    // two spaces make an empty token
    assert!(parse_instance(&b"1 0\n1  1\n".to_vec()).is_none());
    // the header holds three numbers
    assert!(parse_instance(&b"1 0 4\n1 1\n".to_vec()).is_none());
    // a module line with one number
    assert!(parse_instance(&b"1 0\n7\n".to_vec()).is_none());
    // not a number
    assert!(parse_instance(&b"1 1\n1 1\n0 x\n".to_vec()).is_none());
    // nothing but comments
    assert!(parse_instance(&b"# nothing\n".to_vec()).is_none());
    assert!(parse_instance(&b"1 0\n1 1\n".to_vec()).is_some());
}

#[test]
fn parse_ints_reads_decimal_tokens() {
    assert_eq!(parse_ints(&b"12 0 907".to_vec()), Some(vec![12, 0, 907]));
    assert_eq!(parse_ints(&b"18446744073709551615".to_vec()), Some(vec![u64::MAX]));
    assert_eq!(parse_ints(&b"18446744073709551616".to_vec()), None);
    assert_eq!(parse_ints(&b"".to_vec()), None);
    assert_eq!(parse_ints(&b"3 -1".to_vec()), None);
}

#[test]
fn canvas_holds_every_module() {
    let plan = vec![(0, 0, Rectangle::new(2, 3)), (2, 0, Rectangle::new(4, 1)), (0, 3, Rectangle::new(1, 5))];
    assert_eq!(canvas_size(&plan), (6, 8));
}
