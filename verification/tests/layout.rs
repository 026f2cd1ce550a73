use mpi_rma::{Element, Error, Indexed, RmaElement};

#[test]
fn validates_indices() {
    let layout = Indexed::<u64>::new(&[4, 1, 7], 8).ok().unwrap();
    assert_eq!(layout.len(), 3);
    assert!(matches!(
        Indexed::<u64>::new(&[1, 1], 8),
        Err(Error::Layout("target entries overlap"))
    ));
    assert!(matches!(
        Indexed::<u64>::new(&[8], 8),
        Err(Error::Range { .. })
    ));
    assert!(matches!(
        Indexed::<u64>::new(&[], 8),
        Err(Error::Layout("layout is empty"))
    ));
}

#[test]
fn layouts_keep_the_order_of_the_values() {
    let layout = Indexed::<u64>::new(&[4, 1, 7], 8).ok().unwrap();
    assert_eq!(layout.displacements(), &vec![32, 8, 56]);
    assert_eq!(layout.bound(), 8);
    assert!(!layout.is_empty());

    let bytes = Indexed::<u8>::new(&[3, 0], 4).ok().unwrap();
    assert_eq!(bytes.displacements(), &vec![3, 0]);
    assert_eq!(bytes.bound(), 4);

    let halves = Indexed::<i16>::new(&[3, 0], 4).ok().unwrap();
    assert_eq!(halves.displacements(), &vec![6, 0]);
}

#[test]
fn repeated_targets_are_found_wherever_they_stand() {
    assert!(matches!(
        Indexed::<u32>::new(&[5, 2, 9, 2], 10),
        Err(Error::Layout("target entries overlap"))
    ));
    // Overlap is reported before the range.
    assert!(matches!(
        Indexed::<u32>::new(&[50, 50], 10),
        Err(Error::Layout("target entries overlap"))
    ));
    assert!(Indexed::<u32>::new(&[9, 8, 7, 6, 5, 4, 3, 2, 1, 0], 10).is_ok());
}

#[test]
fn the_greatest_index_is_reported() {
    assert!(matches!(
        Indexed::<u64>::new(&[2, 11, 5], 8),
        Err(Error::Range {
            start: 11,
            len: 1,
            window: 8
        })
    ));
    assert!(matches!(
        Indexed::<u64>::new(&[0], 0),
        Err(Error::Range {
            start: 0,
            len: 1,
            window: 0
        })
    ));
}

#[test]
fn displacements_must_fit_an_address() {
    let most = isize::MAX as usize;
    assert!(matches!(
        Indexed::<u64>::new(&[most], usize::MAX),
        Err(Error::SizeOverflow)
    ));
    let layout = Indexed::<u8>::new(&[most], usize::MAX).ok().unwrap();
    assert_eq!(layout.displacements(), &vec![isize::MAX]);
    assert_eq!(layout.bound(), most + 1);
}

#[test]
fn elements_have_their_numbers_and_widths() {
    let expected = [
        (Element::U8, 1, 1),
        (Element::U16, 2, 2),
        (Element::U32, 3, 4),
        (Element::U64, 4, 8),
        (Element::Usize, 5, std::mem::size_of::<usize>()),
        (Element::I8, 6, 1),
        (Element::I16, 7, 2),
        (Element::I32, 8, 4),
        (Element::I64, 9, 8),
        (Element::Isize, 10, std::mem::size_of::<isize>()),
        (Element::F32, 11, std::mem::size_of::<f32>()),
        (Element::F64, 12, std::mem::size_of::<f64>()),
    ];
    for (element, id, width) in expected {
        assert_eq!(element.type_id(), id);
        assert_eq!(element.width(), width);
    }
    assert_eq!(<u8 as RmaElement>::TYPE_ID, 1);
    assert_eq!(<u16 as RmaElement>::TYPE_ID, 2);
    assert_eq!(<u32 as RmaElement>::TYPE_ID, 3);
    assert_eq!(<u64 as RmaElement>::TYPE_ID, 4);
    assert_eq!(<usize as RmaElement>::TYPE_ID, 5);
    assert_eq!(<i8 as RmaElement>::TYPE_ID, 6);
    assert_eq!(<i16 as RmaElement>::TYPE_ID, 7);
    assert_eq!(<i32 as RmaElement>::TYPE_ID, 8);
    assert_eq!(<i64 as RmaElement>::TYPE_ID, 9);
    assert_eq!(<isize as RmaElement>::TYPE_ID, 10);
    assert_eq!(<i32 as RmaElement>::element(), Element::I32);
    assert_eq!(<usize as RmaElement>::element(), Element::Usize);
}
