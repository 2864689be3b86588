use std::io::Write;

use bebasin::archive::{unpack, unpack_result};
use bebasin::disk::{Disk, Slot};
use bebasin::error::{GenericError, IoFault, ThreadError, ZipFault};
use bebasin::message_digest::{checksum_matches, digest_matches, md5_digest_of_file, to_hex};
use bebasin::updater::{
    download_and_stage, executable_mode, find_infix, verify_staged, Action, Checksum, Event,
    Latest, Platform, Release, ReleaseAssets, Stage, SwapStep, Updater, CURRENT_VERSION,
};

fn archive(entries: &[(&str, &[u8])]) -> Vec<u8> {
    let mut writer = zip::ZipWriter::new(std::io::Cursor::new(Vec::new()));
    for (name, bytes) in entries {
        writer.start_file(*name, zip::write::FileOptions::default()).unwrap();
        writer.write_all(bytes).unwrap();
    }
    writer.finish().unwrap().into_inner()
}

fn latest(version: u64, linux: &str) -> Latest {
    Latest {
        version,
        checksum: Checksum {
            linux: linux.to_string(),
            windows: "w".to_string(),
            macos: "m".to_string(),
        },
    }
}

fn md5_hex(bytes: &[u8]) -> String {
    let mut disk = Disk::new(None, None, None);
    disk.write(Slot::Staging, bytes.to_vec());
    String::from_utf8(to_hex(&md5_digest_of_file(&disk, Slot::Staging).unwrap())).unwrap()
}

fn release() -> Release {
    Release {
        assets: vec![
            ReleaseAssets {
                name: "bebasin-windows.zip".to_string(),
                size: 1,
                browser_download_url: "https://example.com/w".to_string(),
            },
            ReleaseAssets {
                name: "bebasin-linux.zip".to_string(),
                size: 2,
                browser_download_url: "https://example.com/l".to_string(),
            },
            ReleaseAssets {
                name: "bebasin-linux-musl.zip".to_string(),
                size: 3,
                browser_download_url: "https://example.com/l2".to_string(),
            },
        ],
    }
}

#[test]
fn version_comparison_is_strict() {
    let mut updater = Updater::new();
    assert_eq!(updater.current, CURRENT_VERSION);
    assert_eq!(updater.latest, None);
    updater.current = 202009182331;
    updater.latest = Some(latest(202011120913, "x"));
    assert!(updater.is_updatable());
    updater.current = 202011120913;
    assert!(!updater.is_updatable());
    updater.current = 202011120914;
    assert!(!updater.is_updatable());
}

#[test]
fn get_latest_info_stores_and_returns() {
    let mut updater = Updater::new();
    let got = updater.get_latest_info(latest(7, "abc"));
    assert_eq!(got, latest(7, "abc"));
    assert_eq!(updater.latest, Some(latest(7, "abc")));
}

#[test]
fn digests_and_hex() {
    assert_eq!(to_hex(&[0x00, 0x0f, 0xa0, 0xff]), b"000fa0ff".to_vec());
    assert_eq!(to_hex(&[]), Vec::<u8>::new());
    assert_eq!(md5_hex(b"abcdefghijklmnopqrstuvwxyz"), "c3fcd3d76192e4007dfb496cca67e13b");
    assert_eq!(md5_hex(b""), "d41d8cd98f00b204e9800998ecf8427e");
    assert!(checksum_matches(b"", b"d41d8cd98f00b204e9800998ecf8427e"));
    assert!(!checksum_matches(b"", b"D41D8CD98F00B204E9800998ECF8427E"));
    assert!(!checksum_matches(b"x", b"d41d8cd98f00b204e9800998ecf8427e"));
    assert!(digest_matches(&[0xab, 0x01], b"ab01"));
    assert!(!digest_matches(&[0xab, 0x01], b"ab1"));
    let disk = Disk::new(None, None, None);
    assert_eq!(
        md5_digest_of_file(&disk, Slot::Staging),
        Err(GenericError::IOError(IoFault::NotFound))
    );
}

#[test]
fn wrong_checksums_are_refused() {
    assert_eq!(verify_staged(b"", b"d41d8cd98f00b204e9800998ecf8427e"), Ok(()));
    assert_eq!(
        verify_staged(b"tampered", b"d41d8cd98f00b204e9800998ecf8427e"),
        Err(GenericError::IntegrityError)
    );
}

#[test]
fn unpacks_the_named_entry() {
    let zip = archive(&[("readme", b"hello"), ("bebasin", b"\x7fELF binary")]);
    assert_eq!(unpack(&zip, "bebasin"), Ok(b"\x7fELF binary".to_vec()));
    assert_eq!(unpack(&zip, "readme"), Ok(b"hello".to_vec()));
    assert_eq!(unpack(&zip, "bebasin.exe"), Err(GenericError::ZipError(ZipFault::FileNotFound)));
    assert_eq!(unpack(b"not a zip", "bebasin"), Err(GenericError::ZipError(ZipFault::InvalidArchive)));
    assert_eq!(unpack(b"", "bebasin"), Err(GenericError::ZipError(ZipFault::InvalidArchive)));
    assert_eq!(unpack_result(Ok(vec![1, 2])), Ok(vec![1, 2]));
    assert_eq!(unpack_result(Err(ZipFault::Io)), Err(GenericError::ZipError(ZipFault::Io)));
}

#[test]
fn a_corrupt_entry_is_refused() {
    let mut writer = zip::ZipWriter::new(std::io::Cursor::new(Vec::new()));
    let stored = zip::write::FileOptions::default().compression_method(zip::CompressionMethod::Stored);
    writer.start_file("bebasin", stored).unwrap();
    writer.write_all(b"0123456789abcdef").unwrap();
    let mut zip = writer.finish().unwrap().into_inner();
    assert_eq!(unpack(&zip, "bebasin"), Ok(b"0123456789abcdef".to_vec()));
    let at = zip.windows(4).position(|w| w == b"0123").unwrap();
    zip[at] ^= 0xff;
    assert_eq!(unpack(&zip, "bebasin"), Err(GenericError::ZipError(ZipFault::Io)));
}

#[test]
fn an_unknown_compression_method_is_unsupported() {
    let mut writer = zip::ZipWriter::new(std::io::Cursor::new(Vec::new()));
    let stored = zip::write::FileOptions::default().compression_method(zip::CompressionMethod::Stored);
    writer.start_file("bebasin", stored).unwrap();
    writer.write_all(b"payload").unwrap();
    let mut zip = writer.finish().unwrap().into_inner();
    let central = zip.windows(4).position(|w| w == b"PK\x01\x02").unwrap();
    zip[central + 10] = 14;
    assert_eq!(
        unpack(&zip, "bebasin"),
        Err(GenericError::ZipError(ZipFault::UnsupportedArchive))
    );
}

#[test]
fn download_is_verified_before_it_is_unpacked() {
    let zip = archive(&[("bebasin", b"new binary")]);
    let good = Some(latest(9, &md5_hex(&zip)));
    assert_eq!(download_and_stage(&zip, &good, Platform::Linux), Ok(b"new binary".to_vec()));
    let bad = Some(latest(9, "00000000000000000000000000000000"));
    assert_eq!(download_and_stage(&zip, &bad, Platform::Linux), Err(GenericError::IntegrityError));
    assert_eq!(download_and_stage(&zip, &good, Platform::Windows), Err(GenericError::IntegrityError));
    assert_eq!(download_and_stage(&zip, &None, Platform::Linux), Err(GenericError::UnexpectedEvent));
}

#[test]
fn platform_words() {
    assert_eq!(Platform::Linux.tag(), "linux");
    assert_eq!(Platform::Macos.tag(), "macos");
    assert_eq!(Platform::Windows.tag(), "windows");
    assert_eq!(Platform::Linux.entry_name(), "bebasin");
    assert_eq!(Platform::Macos.entry_name(), "bebasin");
    assert_eq!(Platform::Windows.entry_name(), "bebasin.exe");
    assert!(Platform::Linux.is_posix());
    assert!(Platform::Macos.is_posix());
    assert!(!Platform::Windows.is_posix());
    let sums = latest(1, "l").checksum;
    assert_eq!(Platform::Linux.checksum_of(&sums), b"l");
    assert_eq!(Platform::Macos.checksum_of(&sums), b"m");
    assert_eq!(Platform::Windows.checksum_of(&sums), b"w");
}

#[test]
fn selects_the_first_asset_of_the_platform() {
    assert_eq!(release().select(Platform::Windows), 0);
    assert_eq!(release().select(Platform::Linux), 1);
    assert_eq!(release().select(Platform::Macos), 3);
    assert!(find_infix(b"bebasin-linux.zip", b"linux"));
    assert!(find_infix(b"linux", b"linux"));
    assert!(find_infix(b"anything", b""));
    assert!(find_infix(b"", b""));
    assert!(!find_infix(b"linu", b"linux"));
    assert!(!find_infix(b"bebasin-macos.zip", b"linux"));
}

#[test]
fn executable_mode_sets_the_owner_execute_bit() {
    assert_eq!(executable_mode(0o100644), 0o744);
    assert_eq!(executable_mode(0o100755), 0o755);
    assert_eq!(executable_mode(0o104000), 0o4100);
    assert_eq!(executable_mode(0), 0o100);
}

#[test]
fn a_full_update_on_linux() {
    let zip = archive(&[("bebasin", b"new binary")]);
    let mut updater = Updater::new();
    updater.current = 202009182331;
    let p = Platform::Linux;
    let info = latest(202011120913, &md5_hex(&zip));
    assert_eq!(updater.process_update(p, Event::Latest(info.clone())), Action::FetchRelease);
    assert_eq!(updater.stage, Stage::CheckedOutdated);
    assert_eq!(updater.latest, Some(info));
    assert_eq!(
        updater.process_update(p, Event::Release(release())),
        Action::Download("https://example.com/l".to_string())
    );
    assert_eq!(updater.stage, Stage::Downloading);
    assert_eq!(updater.process_update(p, Event::Body(zip.clone())), Action::WriteStaging(zip.clone()));
    assert_eq!(updater.stage, Stage::Verifying);
    assert_eq!(
        updater.process_update(p, Event::Staged(zip)),
        Action::WriteBinary(b"new binary".to_vec())
    );
    assert_eq!(updater.stage, Stage::Staged);
    assert_eq!(updater.process_update(p, Event::Done), Action::ReadMode);
    assert_eq!(updater.process_update(p, Event::Mode(0o100644)), Action::SetMode(0o744));
    assert_eq!(updater.process_update(p, Event::Done), Action::MoveAside);
    assert_eq!(updater.stage, Stage::Swapping(SwapStep::MovingAside));
    assert_eq!(updater.process_update(p, Event::Done), Action::Activate);
    assert_eq!(updater.process_update(p, Event::Done), Action::CleanUp);
    assert_eq!(updater.process_update(p, Event::Done), Action::Finish);
    assert_eq!(updater.stage, Stage::Swapped);
    assert_eq!(updater.process_update(p, Event::Done), Action::Stop);
    assert_eq!(updater.stage, Stage::Swapped);
}

#[test]
fn windows_skips_the_permission_steps() {
    let mut updater = Updater { current: 1, latest: Some(latest(2, "x")), stage: Stage::Staged };
    assert_eq!(updater.process_update(Platform::Windows, Event::Done), Action::MoveAside);
    assert_eq!(updater.stage, Stage::Swapping(SwapStep::MovingAside));
}

#[test]
fn an_up_to_date_program_stops() {
    let mut updater = Updater::new();
    let same = latest(CURRENT_VERSION, "x");
    assert_eq!(updater.process_update(Platform::Linux, Event::Latest(same)), Action::Stop);
    assert_eq!(updater.stage, Stage::CheckedUpToDate);
    assert_eq!(updater.process_update(Platform::Linux, Event::Release(release())), Action::Stop);
    assert_eq!(updater.stage, Stage::CheckedUpToDate);
}

#[test]
fn a_wrong_checksum_fails_and_nothing_is_moved() {
    let zip = archive(&[("bebasin", b"new binary")]);
    let mut updater = Updater {
        current: 1,
        latest: Some(latest(2, "ffffffffffffffffffffffffffffffff")),
        stage: Stage::Verifying,
    };
    assert_eq!(
        updater.process_update(Platform::Linux, Event::Staged(zip)),
        Action::Abort(GenericError::IntegrityError)
    );
    assert_eq!(updater.stage, Stage::Failed);
    for event in [Event::Done, Event::Mode(0o644), Event::Body(vec![])] {
        assert_eq!(updater.process_update(Platform::Linux, event), Action::Stop);
        assert_eq!(updater.stage, Stage::Failed);
    }
}

#[test]
fn failures_end_the_attempt() {
    let net = GenericError::NetworkError("timeout".to_string());
    let mut updater = Updater { current: 1, latest: None, stage: Stage::Downloading };
    assert_eq!(
        updater.process_update(Platform::Linux, Event::Failure(net.clone())),
        Action::Abort(net.clone())
    );
    assert_eq!(updater.stage, Stage::Failed);

    let io = GenericError::IOError(IoFault::Other("denied".to_string()));
    let mut updater = Updater {
        current: 1,
        latest: None,
        stage: Stage::Swapping(SwapStep::Activating),
    };
    assert_eq!(
        updater.process_update(Platform::Linux, Event::Failure(io.clone())),
        Action::Fatal(io)
    );
    assert_eq!(updater.stage, Stage::Failed);

    let mut updater = Updater {
        current: 1,
        latest: None,
        stage: Stage::Swapping(SwapStep::Activating),
    };
    assert_eq!(
        updater.process_update(Platform::Linux, Event::Mode(0)),
        Action::Fatal(GenericError::UnexpectedEvent)
    );

    let mut updater = Updater { current: 1, latest: Some(latest(2, "x")), stage: Stage::CheckedOutdated };
    assert_eq!(
        updater.process_update(Platform::Macos, Event::Release(release())),
        Action::Abort(GenericError::NoAsset)
    );

    let mut updater = Updater::new();
    assert_eq!(
        updater.process_update(Platform::Linux, Event::Done),
        Action::Abort(GenericError::UnexpectedEvent)
    );
    assert_eq!(updater.stage, Stage::Failed);
}

#[test]
fn thread_error_message() {
    let e = ThreadError("worker died".to_string());
    assert_eq!(e.to_string(), "worker died");
    assert_eq!(GenericError::ThreadError(e.clone()), GenericError::ThreadError(e));
}
