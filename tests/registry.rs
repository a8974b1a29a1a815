use ferrox::registry::{TypeInfo, TypeRegistry};

fn int32() -> TypeInfo {
    TypeInfo::Integer { bits: 32, signed: true }
}

fn func(name: &str) -> TypeInfo {
    TypeInfo::Function { name: name.to_string(), is_extern: false }
}

fn is_int32(t: &TypeInfo) -> bool {
    matches!(t, TypeInfo::Integer { bits: 32, signed: true })
}

fn is_func(t: &TypeInfo, n: &str) -> bool {
    matches!(t, TypeInfo::Function { name, is_extern: false } if name == n)
}

#[test]
fn nested_ranges_query() {
    let mut r = TypeRegistry::new();
    r.insert(0x1000..0x1010, int32());
    r.insert(0x1004..0x1008, func("f"));
    let hits = r.get_at_address(0x1006);
    assert_eq!(hits.len(), 2);
    assert!(is_int32(hits[0]));
    assert!(is_func(hits[1], "f"));
    let hits = r.get_at_address(0x1002);
    assert_eq!(hits.len(), 1);
    assert!(is_int32(hits[0]));
    assert!(r.get_at_address(0x1010).is_empty());
}

#[test]
fn empty_registry_finds_nothing() {
    let r = TypeRegistry::new();
    assert!(r.get_at_address(0).is_empty());
    assert!(r.get_at_address(u64::MAX).is_empty());
}

#[test]
fn range_start_is_included() {
    let mut r = TypeRegistry::new();
    r.insert(0x20..0x30, func("g"));
    assert_eq!(r.get_at_address(0x20).len(), 1);
    assert!(r.get_at_address(0x1F).is_empty());
    assert_eq!(r.get_at_address(0x2F).len(), 1);
}

#[test]
fn equal_starts_keep_insertion_order() {
    let mut r = TypeRegistry::new();
    r.insert(0x100..0x200, func("a"));
    r.insert(0x100..0x180, func("b"));
    r.insert(0x100..0x300, func("c"));
    let hits = r.get_at_address(0x150);
    assert_eq!(hits.len(), 3);
    assert!(is_func(hits[0], "a") && is_func(hits[1], "b") && is_func(hits[2], "c"));
    let hits = r.get_at_address(0x1A0);
    assert_eq!(hits.len(), 2);
    assert!(is_func(hits[0], "a") && is_func(hits[1], "c"));
}

#[test]
fn results_ordered_by_start() {
    let mut r = TypeRegistry::new();
    r.insert(0x50..0x60, func("late"));
    r.insert(0x10..0x60, func("early"));
    let hits = r.get_at_address(0x55);
    assert_eq!(hits.len(), 2);
    assert!(is_func(hits[0], "early") && is_func(hits[1], "late"));
}

#[test]
fn insertion_order_gives_same_result_set() {
    let ranges = [(0x10u64, 0x40u64, "a"), (0x20, 0x30, "b"), (0x05, 0x25, "c"), (0x20, 0x50, "d")];
    let mut forward = TypeRegistry::new();
    for &(s, e, n) in ranges.iter() {
        forward.insert(s..e, func(n));
    }
    let mut backward = TypeRegistry::new();
    for &(s, e, n) in ranges.iter().rev() {
        backward.insert(s..e, func(n));
    }
    for a in 0u64..0x60 {
        let names = |r: &TypeRegistry| {
            let mut v: Vec<String> = r
                .get_at_address(a)
                .iter()
                .map(|t| match t {
                    TypeInfo::Function { name, .. } => name.clone(),
                    _ => String::new(),
                })
                .collect();
            v.sort();
            v
        };
        let expected: Vec<String> = {
            let mut v: Vec<String> = ranges
                .iter()
                .filter(|&&(s, e, _)| s <= a && a < e)
                .map(|&(_, _, n)| n.to_string())
                .collect();
            v.sort();
            v
        };
        assert_eq!(names(&forward), expected);
        assert_eq!(names(&backward), expected);
    }
}

#[test]
fn nested_array_type_clones() {
    let t = TypeInfo::Array { element_type: Box::new(int32()), count: 4 };
    let c = t.clone();
    match c {
        TypeInfo::Array { element_type, count } => {
            assert_eq!(count, 4);
            assert!(is_int32(&element_type));
        }
        _ => panic!("clone changed the variant"),
    }
}
