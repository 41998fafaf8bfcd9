use dirdiff::file_type_enum::{FileType, FileTypeFlags};

fn flags() -> FileTypeFlags {
    FileTypeFlags {
        is_file: false,
        is_dir: false,
        is_symlink: false,
        is_block_device: false,
        is_char_device: false,
        is_fifo: false,
        is_socket: false,
    }
}

#[test]
fn each_flag_gives_its_type() {
    assert_eq!(FileType::from(FileTypeFlags { is_file: true, ..flags() }), FileType::Regular);
    assert_eq!(FileType::from(FileTypeFlags { is_dir: true, ..flags() }), FileType::Directory);
    assert_eq!(FileType::from(FileTypeFlags { is_symlink: true, ..flags() }), FileType::Symlink);
    assert_eq!(
        FileType::from(FileTypeFlags { is_block_device: true, ..flags() }),
        FileType::BlockDevice
    );
    assert_eq!(
        FileType::from(FileTypeFlags { is_char_device: true, ..flags() }),
        FileType::CharDevice
    );
    assert_eq!(FileType::from(FileTypeFlags { is_fifo: true, ..flags() }), FileType::Fifo);
    assert_eq!(FileType::from(FileTypeFlags { is_socket: true, ..flags() }), FileType::Socket);
}

#[test]
fn no_flag_gives_other() {
    assert_eq!(FileType::from(flags()), FileType::Other);
}

#[test]
fn the_first_flag_that_is_set_decides() {
    let all = FileTypeFlags {
        is_file: true,
        is_dir: true,
        is_symlink: true,
        is_block_device: true,
        is_char_device: true,
        is_fifo: true,
        is_socket: true,
    };
    assert_eq!(FileType::from(all), FileType::Regular);
    assert_eq!(FileType::from(FileTypeFlags { is_file: false, ..all }), FileType::Directory);
    assert_eq!(
        FileType::from(FileTypeFlags { is_file: false, is_dir: false, ..all }),
        FileType::Symlink
    );
    assert_eq!(
        FileType::from(FileTypeFlags { is_fifo: true, is_socket: true, ..flags() }),
        FileType::Fifo
    );
}

#[test]
fn into_works_as_from() {
    let ft: FileType = FileTypeFlags { is_dir: true, ..flags() }.into();
    assert_eq!(ft, FileType::Directory);
}

#[test]
fn descriptions_are_the_usual_words() {
    assert_eq!(FileType::Regular.to_string(), "regular file");
    assert_eq!(FileType::Directory.to_string(), "directory");
    assert_eq!(FileType::Symlink.to_string(), "symbolic link");
    assert_eq!(FileType::BlockDevice.to_string(), "block device");
    assert_eq!(FileType::CharDevice.to_string(), "char device");
    assert_eq!(FileType::Fifo.to_string(), "FIFO");
    assert_eq!(FileType::Socket.to_string(), "socket");
    assert_eq!(FileType::Other.to_string(), "other");
}

#[test]
fn directories_are_ordered_first() {
    let mut types = vec![
        FileType::Other,
        FileType::Socket,
        FileType::Symlink,
        FileType::Regular,
        FileType::Directory,
        FileType::Fifo,
    ];
    types.sort();
    assert_eq!(types[0], FileType::Directory);
    assert!(FileType::Directory < FileType::Regular);
    assert!(FileType::Regular < FileType::Symlink);
}
