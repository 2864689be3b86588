use bebasin::disk::{Disk, Effect, Slot};
use bebasin::error::{GenericError, IoFault, ParseError};
use bebasin::parser::parse_hosts_from_file;
use bebasin::registry::{
    backup, install, is_backed, is_installed, remove_temp_file, uninstall,
};
use bebasin::syntax::Fault;
use bebasin::writer::write_hosts_to_file;

const HEADER: &str = "# block-list\n";
const ORIGINAL: &str = "# original\n";

fn content(disk: &Disk, slot: Slot) -> Option<Vec<u8>> {
    disk.read(slot).clone()
}

#[test]
fn install_merges_and_backs_up() {
    let mut disk = Disk::new(Some(b"127.0.0.1 localhost\n".to_vec()), None, None);
    assert!(!is_installed(&disk));
    assert_eq!(install(&mut disk, "0.0.0.0 ads.example.com\n", HEADER, ORIGINAL), Ok(()));
    assert!(is_installed(&disk));
    assert!(is_backed(&disk));
    assert_eq!(
        content(&disk, Slot::Hosts),
        Some(b"# block-list\n0.0.0.0 ads.example.com\n127.0.0.1 localhost\n".to_vec())
    );
    assert_eq!(
        content(&disk, Slot::Backup),
        Some(b"# original\n127.0.0.1 localhost\n".to_vec())
    );
    assert_eq!(
        disk.pending().clone(),
        vec![
            Effect::Write {
                slot: Slot::Backup,
                content: b"# original\n127.0.0.1 localhost\n".to_vec()
            },
            Effect::Write {
                slot: Slot::Hosts,
                content: b"# block-list\n0.0.0.0 ads.example.com\n127.0.0.1 localhost\n".to_vec()
            },
        ]
    );
}

#[test]
fn install_twice_is_install_once() {
    let mut disk = Disk::new(Some(b"127.0.0.1 localhost\n10.0.0.1 nas\n".to_vec()), None, None);
    let source = "0.0.0.0 ads.example.com\n127.0.0.1 blocked.example.com\n";
    install(&mut disk, source, HEADER, ORIGINAL).unwrap();
    let hosts = content(&disk, Slot::Hosts);
    let saved = content(&disk, Slot::Backup);
    disk.take_pending();
    install(&mut disk, source, HEADER, ORIGINAL).unwrap();
    assert_eq!(content(&disk, Slot::Hosts), hosts);
    assert_eq!(content(&disk, Slot::Backup), saved);
    assert_eq!(
        disk.pending().clone(),
        vec![Effect::Write { slot: Slot::Hosts, content: hosts.unwrap() }]
    );
}

#[test]
fn uninstall_restores_the_backup() {
    let original = b"# original\n127.0.0.1 localhost\n10.0.0.1 nas\n".to_vec();
    let mut disk = Disk::new(Some(original.clone()), None, Some(b"stale".to_vec()));
    install(&mut disk, "0.0.0.0 ads.example.com\n", HEADER, ORIGINAL).unwrap();
    disk.take_pending();
    assert_eq!(uninstall(&mut disk), Ok(()));
    assert!(!is_installed(&disk));
    assert_eq!(content(&disk, Slot::Hosts), Some(original));
    assert_eq!(content(&disk, Slot::Backup), None);
    assert_eq!(content(&disk, Slot::Staging), None);
    assert_eq!(
        disk.pending().clone(),
        vec![
            Effect::Copy { from: Slot::Backup, to: Slot::Hosts },
            Effect::Remove { slot: Slot::Staging },
            Effect::Remove { slot: Slot::Backup },
        ]
    );
}

#[test]
fn uninstall_keeps_the_entries_of_a_file_that_was_not_in_written_form() {
    let mut disk = Disk::new(Some(b"127.0.0.1   localhost # mine\n".to_vec()), None, None);
    install(&mut disk, "0.0.0.0 ads.example.com\n", HEADER, ORIGINAL).unwrap();
    uninstall(&mut disk).unwrap();
    assert_eq!(content(&disk, Slot::Hosts), Some(b"# original\n127.0.0.1 localhost\n".to_vec()));
    let hosts = parse_hosts_from_file(&disk, Slot::Hosts).unwrap();
    assert_eq!(hosts.len(), 1);
    assert!(hosts.contains(b"127.0.0.1", b"localhost"));
}

#[test]
fn uninstall_without_backup_fails_and_changes_nothing() {
    let mut disk = Disk::new(Some(b"127.0.0.1 localhost\n".to_vec()), None, Some(vec![1]));
    let before = disk.clone();
    assert_eq!(uninstall(&mut disk), Err(GenericError::IOError(IoFault::NotFound)));
    assert_eq!(disk, before);
}

#[test]
fn install_failures_change_nothing() {
    let mut missing = Disk::new(None, None, None);
    assert_eq!(
        install(&mut missing, "0.0.0.0 a\n", HEADER, ORIGINAL),
        Err(GenericError::IOError(IoFault::NotFound))
    );
    assert_eq!(missing, Disk::new(None, None, None));

    let mut binary = Disk::new(Some(vec![0xff, 0xfe, b'\n']), None, None);
    assert_eq!(
        install(&mut binary, "0.0.0.0 a\n", HEADER, ORIGINAL),
        Err(GenericError::IOError(IoFault::InvalidData))
    );
    assert!(!is_installed(&binary));

    let mut broken = Disk::new(Some(b"127.0.0.1 localhost\nbroken\n".to_vec()), None, None);
    assert_eq!(
        install(&mut broken, "0.0.0.0 a\n", HEADER, ORIGINAL),
        Err(GenericError::ParseError(ParseError {
            line: 2,
            token: 0,
            fault: Fault::InvalidAddress
        }))
    );
    assert!(!is_installed(&broken));

    let mut fine = Disk::new(Some(b"127.0.0.1 localhost\n".to_vec()), None, None);
    let before = fine.clone();
    assert_eq!(
        install(&mut fine, "0.0.0.0\n", HEADER, ORIGINAL),
        Err(GenericError::ParseError(ParseError {
            line: 1,
            token: 1,
            fault: Fault::MissingHostName
        }))
    );
    assert_eq!(fine, before);
    assert!(fine.pending().is_empty());
}

#[test]
fn backup_saves_the_entries_under_the_header() {
    let mut disk = Disk::new(Some(b"# mine\n127.0.0.1  localhost\n".to_vec()), None, None);
    assert_eq!(backup(&mut disk, ORIGINAL), Ok(()));
    assert_eq!(content(&disk, Slot::Backup), Some(b"# original\n127.0.0.1 localhost\n".to_vec()));
    assert_eq!(content(&disk, Slot::Hosts), Some(b"# mine\n127.0.0.1  localhost\n".to_vec()));

    let mut none = Disk::new(None, None, None);
    assert_eq!(backup(&mut none, ORIGINAL), Err(GenericError::IOError(IoFault::NotFound)));
    assert!(!is_backed(&none));
}

#[test]
fn remove_temp_file_deletes_only_what_exists() {
    let mut disk = Disk::new(None, None, Some(b"tmp".to_vec()));
    remove_temp_file(&mut disk);
    assert_eq!(content(&disk, Slot::Staging), None);
    assert_eq!(disk.pending().clone(), vec![Effect::Remove { slot: Slot::Staging }]);
    remove_temp_file(&mut disk);
    assert_eq!(disk.pending().len(), 1);
}

#[test]
fn disk_operations() {
    let mut disk = Disk::new(None, None, None);
    assert!(!disk.has(Slot::Hosts));
    disk.write(Slot::Hosts, b"abc".to_vec());
    assert!(disk.has(Slot::Hosts));
    assert_eq!(disk.copy(Slot::Hosts, Slot::Backup), Ok(()));
    assert_eq!(content(&disk, Slot::Backup), Some(b"abc".to_vec()));
    assert_eq!(disk.copy(Slot::Staging, Slot::Hosts), Err(GenericError::IOError(IoFault::NotFound)));
    assert_eq!(disk.remove(Slot::Staging), Err(GenericError::IOError(IoFault::NotFound)));
    assert_eq!(disk.remove(Slot::Hosts), Ok(()));
    assert!(!disk.has(Slot::Hosts));
    let journal = disk.take_pending();
    assert_eq!(journal.len(), 3);
    assert!(disk.pending().is_empty());
    assert_eq!(content(&disk, Slot::Backup), Some(b"abc".to_vec()));
}

#[test]
fn write_hosts_to_file_writes_the_rendered_text() {
    let mut disk = Disk::new(Some(b"1.1.1.1 one\n".to_vec()), None, None);
    let hosts = parse_hosts_from_file(&disk, Slot::Hosts).unwrap();
    write_hosts_to_file(&mut disk, Slot::Backup, &hosts, "## ");
    assert_eq!(content(&disk, Slot::Backup), Some(b"## 1.1.1.1 one\n".to_vec()));
}
