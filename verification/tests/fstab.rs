use process1::fstab::{fields_ok, is_well_formed, parse, parse_i8, split_fields, FSTabItem};

#[test]
fn it_works() {
    let result = 2 + 2;
    assert_eq!(result, 4);
}

#[test]
fn test_parse() {
    let contents = "#
        # /etc/fstab
        # Created by anaconda on Sat Jul  9 16:27:31 2022
        #
        # Accessible filesystems, by reference, are maintained under '/dev/disk/'.
        # See man pages fstab(5), findfs(8), mount(8) and/or blkid(8) for more info.
        #
        # After editing this file, run 'systemctl daemon-reload' to update systemd
        # units generated from this file.
        #
        /dev/mapper/openeuler_192-root /                       ext4    defaults        1 1
        UUID=452b7bd2-c3ba-45d6-ab69-5d10d5140249 /boot                   ext4    defaults        1 2
        /dev/mapper/openeuler_192-swap none                    swap    defaults        0 0
        ";
    assert!(is_well_formed(contents));
    let fstab_items = parse(contents);

    assert_eq!(fstab_items.len(), 3);

    assert_eq!(fstab_items[0].device_spec, "/dev/mapper/openeuler_192-root");
    assert_eq!(fstab_items[0].mount_point, "/");
    assert_eq!(fstab_items[0].fs_type, "ext4");
    assert_eq!(fstab_items[0].options, "defaults");

    assert_eq!(
        fstab_items[1].device_spec,
        "/dev/disk/by-uuid/452b7bd2-c3ba-45d6-ab69-5d10d5140249"
    );
    assert_eq!(fstab_items[1].mount_point, "/boot");
    assert_eq!(fstab_items[1].fs_type, "ext4");
    assert_eq!(fstab_items[1].options, "defaults");

    assert_eq!(fstab_items[2].device_spec, "/dev/mapper/openeuler_192-swap");
    assert_eq!(fstab_items[2].mount_point, "none");
    assert_eq!(fstab_items[2].fs_type, "swap");
    assert_eq!(fstab_items[2].options, "defaults");
}

#[test]
fn parse_reads_the_numbers() {
    let items = parse("/dev/sda1 / ext4 rw,noatime 1 2\n");
    assert_eq!(items.len(), 1);
    assert_eq!(items[0].dump, 1);
    assert_eq!(items[0].pass, 2);
    assert_eq!(items[0].state, 0);
    assert_eq!(items[0].options, "rw,noatime");
}

#[test]
fn parse_of_nothing_is_nothing() {
    assert_eq!(parse("").len(), 0);
    assert_eq!(parse("\n\n   \n# only a comment\n").len(), 0);
}

#[test]
fn parse_reads_a_last_line_without_line_feed() {
    let items = parse("a b c d 0 0\r\ne f g h -1 +7");
    assert_eq!(items.len(), 2);
    assert_eq!(items[0].device_spec, "a");
    assert_eq!(items[0].pass, 0);
    assert_eq!(items[1].device_spec, "e");
    assert_eq!(items[1].dump, -1);
    assert_eq!(items[1].pass, 7);
}

#[test]
fn new_takes_the_fields_in_order() {
    let item = FSTabItem::new(vec!["/dev/sdb", "/mnt", "xfs", "ro", "0", "3", "over"]);
    assert_eq!(item.device_spec, "/dev/sdb");
    assert_eq!(item.mount_point, "/mnt");
    assert_eq!(item.fs_type, "xfs");
    assert_eq!(item.options, "ro");
    assert_eq!(item.dump, 0);
    assert_eq!(item.pass, 3);
}

#[test]
fn well_formed_wants_six_fields_and_two_numbers() {
    assert!(is_well_formed("a b c d 1 1"));
    assert!(!is_well_formed("a b c d 1"));
    assert!(!is_well_formed("a b c d x 1"));
    assert!(!is_well_formed("a b c d 1 128"));
    assert!(is_well_formed("a b c d -128 127"));
    assert!(!is_well_formed("UUID / c d 1 1"));
    assert!(is_well_formed("UUID= / c d 1 1"));
    assert!(is_well_formed("#a b"));
}

#[test]
fn fields_ok_agrees() {
    assert!(fields_ok(&vec!["a", "b", "c", "d", "1", "2"]));
    assert!(!fields_ok(&vec!["a", "b", "c", "d", "1"]));
    assert!(!fields_ok(&vec!["a", "b", "c", "d", "", "2"]));
}

#[test]
fn small_numbers() {
    assert_eq!(parse_i8("0"), Some(0));
    assert_eq!(parse_i8("127"), Some(127));
    assert_eq!(parse_i8("128"), None);
    assert_eq!(parse_i8("-128"), Some(-128));
    assert_eq!(parse_i8("-129"), None);
    assert_eq!(parse_i8("+5"), Some(5));
    assert_eq!(parse_i8("0000000000000000000000012"), Some(12));
    assert_eq!(parse_i8("99999999999999999999999"), None);
    assert_eq!(parse_i8(""), None);
    assert_eq!(parse_i8("-"), None);
    assert_eq!(parse_i8("1a"), None);
    assert_eq!(parse_i8(" 1"), None);
    for n in i8::MIN..=i8::MAX {
        assert_eq!(parse_i8(&format!("{}", n)), Some(n));
        assert_eq!(parse_i8(&format!("{}", n)), format!("{}", n).parse::<i8>().ok());
    }
}

#[test]
fn fields_are_what_std_splits() {
    for line in ["", "  ", "a", " a  b\tc ", "x\u{a0}y\u{3000}z", "\u{2003}q"] {
        let expected: Vec<&str> = line.split_whitespace().collect();
        assert_eq!(split_fields(line), expected);
    }
}
