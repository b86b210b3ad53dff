use interstellar_os::initrd::{
    get_file_contents, get_file_names, number_of_files, parse_initrd, parse_initrd_file_entries,
    parse_initrd_metadata, total_files_size, InitrdData, InitrdMetadata,
};

const RAMDISK: &str = "Number Of Files: 2\n\
Total Files Size: 11\n\
File Entry:\n\
Name: Hello.txt\n\
Size: 5\n\
Offset: 1\n\
File Entry End:\n\
File Entry:\n\
Name:  world.TXT \n\
Size: 6\n\
Offset: 7\n\
File Entry End:\n\
Data:\n\
hello world!\n\
Data End:\n";

#[test]
fn metadata_is_read_from_the_header() {
    let m = parse_initrd_metadata(RAMDISK.as_bytes()).unwrap();
    assert_eq!(m, InitrdMetadata { num_files: 2, total_files_size: 11 });
}

#[test]
fn metadata_needs_both_numbers() {
    assert_eq!(parse_initrd_metadata(b"Number Of Files: 2\n"), None);
    assert_eq!(parse_initrd_metadata(b"Number Of Files: two\nTotal Files Size: 3\n"), None);
    assert_eq!(parse_initrd_metadata(b"Number Of Files: 2"), None);
    assert_eq!(
        parse_initrd_metadata(b"Total Files Size: +30\nNumber Of Files:\t7 \n"),
        Some(InitrdMetadata { num_files: 7, total_files_size: 30 })
    );
}

#[test]
fn file_entries_are_read_in_order() {
    let entries = parse_initrd_file_entries(RAMDISK.as_bytes()).unwrap();
    assert_eq!(entries.len(), 2);
    assert_eq!(entries[0].name, "Hello.txt");
    assert_eq!((entries[0].size, entries[0].offset), (5, 1));
    assert_eq!(entries[1].name, "world.TXT");
    assert_eq!((entries[1].size, entries[1].offset), (6, 7));
    assert_eq!(get_file_names(&entries), vec!["Hello.txt".to_string(), "world.TXT".to_string()]);
}

#[test]
fn an_entry_without_end_marker_is_rejected() {
    assert!(parse_initrd_file_entries(b"File Entry:\nName: a\nSize: 1\nOffset: 0\n").is_none());
    assert!(parse_initrd_file_entries(b"File Entry:\nName: a\nSize: x\nOffset: 0\nFile Entry End:").is_none());
    assert_eq!(parse_initrd_file_entries(b"no entries here").map(|e| e.len()), Some(0));
}

#[test]
fn contents_are_found_whatever_the_case() {
    let entries = parse_initrd_file_entries(RAMDISK.as_bytes()).unwrap();
    let data = RAMDISK.as_bytes();
    assert_eq!(get_file_contents(&entries, data, " HELLO.TXT ").as_deref(), Some("hello"));
    assert_eq!(get_file_contents(&entries, data, "World.txt").as_deref(), Some("world!"));
    assert_eq!(get_file_contents(&entries, data, "missing"), None);
    assert_eq!(get_file_contents(&entries, b"no data section", "hello.txt"), None);
}

#[test]
fn a_whole_ramdisk_is_read() {
    let initrd = parse_initrd(RAMDISK.as_bytes().to_vec()).unwrap();
    assert_eq!(number_of_files(&initrd), 2);
    assert_eq!(total_files_size(&initrd), 11);
    let again = InitrdData::new(initrd.metadata, Vec::new(), Vec::new());
    assert_eq!(number_of_files(&again), 2);
    assert!(parse_initrd(b"File Entry:\n".to_vec()).is_none());
}

#[test]
fn an_entry_with_invalid_utf8_is_passed_over() {
    let mut image = b"File Entry:\nName: a\nSize: 2\nOffset: 1\nFile Entry End:\n\
File Entry:\nName: A \nSize: 2\nOffset: 3\nFile Entry End:\nData:\n"
        .to_vec();
    image.extend_from_slice(&[0xff, 0xfe, b'o', b'k']);
    image.extend_from_slice(b"\nData End:\n");
    let entries = parse_initrd_file_entries(&image).unwrap();
    assert_eq!(get_file_contents(&entries, &image, "a").as_deref(), Some("ok"));
    assert_eq!(get_file_contents(&entries, &image, "b"), None);
}

#[test]
fn an_entry_past_the_data_section_has_no_contents() {
    let image = b"File Entry:\nName: x\nSize: 50\nOffset: 0\nFile Entry End:\nData:\nshort\nData End:\n";
    let entries = parse_initrd_file_entries(image).unwrap();
    assert_eq!(get_file_contents(&entries, image, "x"), None);
}
