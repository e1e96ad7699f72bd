use diskscope::scan::bulk::{
    is_unsupported, parse_batch, parse_record, reply, Buffer, BulkError, Malformed, NotSupported,
    Reply, ATTR_CMN_DEVID, ATTR_CMN_ERROR, ATTR_CMN_FILEID, ATTR_CMN_NAME, ATTR_CMN_OBJTYPE,
    ATTR_CMN_RETURNED_ATTRS, ATTR_FILE_ALLOCSIZE, ATTR_FILE_LINKCOUNT, ATTR_FILE_TOTALSIZE,
    RETURNED_ATTRS_BYTES, VDIR, VREG,
};
use diskscope::scan::Ent;

fn codes() -> NotSupported {
    NotSupported {
        einval: libc::EINVAL,
        enotsup: libc::ENOTSUP,
        eopnotsupp: libc::EOPNOTSUPP,
        enosys: libc::ENOSYS,
    }
}

/// Builds a record byte-for-byte the way the kernel does, so the parser is
/// pinned to the real layout rather than to whatever it happens to do.
fn record(is_dir: bool, name: &str, error: u32) -> Vec<u8> {
    let mut rec = vec![0u8; 4]; // length, filled in at the end
    let common = ATTR_CMN_RETURNED_ATTRS
        | ATTR_CMN_NAME
        | ATTR_CMN_DEVID
        | ATTR_CMN_OBJTYPE
        | ATTR_CMN_FILEID
        | ATTR_CMN_ERROR;
    let fileattr = if is_dir || error != 0 {
        0
    } else {
        ATTR_FILE_LINKCOUNT | ATTR_FILE_TOTALSIZE | ATTR_FILE_ALLOCSIZE
    };
    rec.extend_from_slice(&common.to_le_bytes()); // commonattr
    rec.extend_from_slice(&0u32.to_le_bytes()); // volattr
    rec.extend_from_slice(&0u32.to_le_bytes()); // dirattr
    rec.extend_from_slice(&fileattr.to_le_bytes());
    rec.extend_from_slice(&0u32.to_le_bytes()); // forkattr
    rec.extend_from_slice(&error.to_le_bytes()); // ERROR, hoisted to front

    let attrref_at = rec.len();
    rec.extend_from_slice(&0i32.to_le_bytes()); // dataoffset, patched below
    rec.extend_from_slice(&(name.len() as u32 + 1).to_le_bytes());
    if error == 0 {
        rec.extend_from_slice(&0x0100_000eu32.to_le_bytes()); // devid
        rec.extend_from_slice(&(if is_dir { VDIR } else { VREG }).to_le_bytes());
        rec.extend_from_slice(&4242u64.to_le_bytes()); // fileid
        if !is_dir {
            rec.extend_from_slice(&2u32.to_le_bytes()); // linkcount
            rec.extend_from_slice(&51_200i64.to_le_bytes()); // totalsize
            rec.extend_from_slice(&53_248i64.to_le_bytes()); // allocsize
        }
    }
    let name_at = rec.len();
    rec.extend_from_slice(name.as_bytes());
    rec.push(0);
    while rec.len() % 4 != 0 {
        rec.push(0);
    }
    let offset = (name_at - attrref_at) as i32;
    rec[attrref_at..attrref_at + 4].copy_from_slice(&offset.to_le_bytes());
    let length = rec.len() as u32;
    rec[0..4].copy_from_slice(&length.to_le_bytes());
    rec
}

/// name, is_dir, logical, physical, nlink, errno
type Parsed = (String, bool, u64, u64, u32, i32);

fn parse_all(buf: &[u8], count: usize) -> Result<Vec<Parsed>, Malformed> {
    let mut ents: Vec<Ent<'_>> = Vec::new();
    parse_batch(buf, count, &mut ents)?;
    Ok(ents
        .iter()
        .map(|e| {
            (
                String::from_utf8_lossy(e.name).into_owned(),
                e.is_dir,
                e.logical,
                e.physical,
                e.nlink,
                e.error,
            )
        })
        .collect())
}

#[test]
fn parses_a_regular_file_record() {
    let got = parse_all(&record(false, "big.bin", 0), 1).unwrap();
    assert_eq!(got, vec![("big.bin".into(), false, 51_200, 53_248, 2, 0)]);
}

#[test]
fn a_directory_record_has_no_size_fields() {
    // The bug this pins: reading sizes at a fixed offset here would have
    // picked up the filename bytes.
    let got = parse_all(&record(true, "subdir", 0), 1).unwrap();
    assert_eq!(got, vec![("subdir".into(), true, 0, 0, 1, 0)]);
}

#[test]
fn an_errored_entry_keeps_only_its_name() {
    let got = parse_all(&record(false, "denied", libc::EACCES as u32), 1).unwrap();
    assert_eq!(got, vec![("denied".into(), false, 0, 0, 1, libc::EACCES)]);
}

#[test]
fn a_batch_of_mixed_records_parses_in_order() {
    let mut buf = Vec::new();
    buf.extend_from_slice(&record(true, "a", 0));
    buf.extend_from_slice(&record(false, "a-much-longer-filename-here.dat", 0));
    buf.extend_from_slice(&record(false, "bb.txt", 0));
    let got = parse_all(&buf, 3).unwrap();
    let names: Vec<&str> = got.iter().map(|g| g.0.as_str()).collect();
    assert_eq!(names, ["a", "a-much-longer-filename-here.dat", "bb.txt"]);
    assert_eq!(got[1].2, 51_200);
}

#[test]
fn truncated_reply_is_rejected_not_read_past() {
    let buf = [0u8; 8];
    let mut ents = Vec::new();
    let err = parse_batch(&buf, 1, &mut ents).unwrap_err();
    assert!(ents.is_empty(), "should not yield");
    assert_eq!(err, Malformed::RecordPastBuffer);
    assert!(
        is_unsupported(&BulkError::Reply(err), &codes()),
        "a malformed reply should send us to the fallback"
    );
}

#[test]
fn a_name_pointing_outside_its_record_is_rejected() {
    let mut rec = record(false, "ok.txt", 0);
    // Push the name reference far past the end of the record.
    let attrref_at = 4 + RETURNED_ATTRS_BYTES + 4;
    rec[attrref_at..attrref_at + 4].copy_from_slice(&9999i32.to_le_bytes());
    let mut ents = Vec::new();
    let err = parse_batch(&rec, 1, &mut ents).unwrap_err();
    assert!(ents.is_empty(), "should not yield");
    assert_eq!(err, Malformed::NameOutsideRecord);
    rec[attrref_at..attrref_at + 4].copy_from_slice(&(-100i32).to_le_bytes());
    assert_eq!(
        parse_batch(&rec, 1, &mut Vec::new()),
        Err(Malformed::NameOutsideRecord)
    );
}

#[test]
fn every_fault_has_its_message() {
    let mut ents = Vec::new();
    assert_eq!(
        parse_batch(&[0u8; 23], 1, &mut ents).unwrap_err().message(),
        "getattrlistbulk: record extends past the reply buffer"
    );
    assert_eq!(
        parse_batch(&[0u8; 24], 1, &mut ents).unwrap_err().message(),
        "getattrlistbulk: record length outside the reply buffer"
    );
    let mut rec = record(false, "x", 0);
    rec[4..8].copy_from_slice(&ATTR_CMN_RETURNED_ATTRS.to_le_bytes());
    assert_eq!(
        parse_batch(&rec, 1, &mut Vec::new()).unwrap_err().message(),
        "getattrlistbulk: reply is missing ATTR_CMN_NAME"
    );
    let rec = record(false, "x", 0);
    assert_eq!(
        parse_record(&rec[..60]).unwrap_err().message(),
        "getattrlistbulk: name reference outside the record"
    );
    let mut short = record(true, "", 0);
    short[16..20].copy_from_slice(&ATTR_FILE_TOTALSIZE.to_le_bytes());
    assert_eq!(
        parse_record(&short).unwrap_err().message(),
        "getattrlistbulk: attribute runs past the end of its record"
    );
    assert_eq!(
        parse_record(&[0u8; 10]).unwrap_err(),
        Malformed::AttributePastRecord
    );
}

#[test]
fn entries_before_a_fault_stay() {
    let mut buf = record(true, "first", 0);
    let mut bad = record(false, "second", 0);
    bad[4..8].copy_from_slice(&0u32.to_le_bytes());
    buf.extend_from_slice(&bad);
    let mut ents = Vec::new();
    assert_eq!(parse_batch(&buf, 2, &mut ents), Err(Malformed::NoName));
    assert_eq!(ents.len(), 1);
    assert_eq!(ents[0].name, b"first");
    assert_eq!(ents[0].ino, 4242);
    assert_eq!(ents[0].dev, 0x0100_000e);
}

#[test]
fn an_allocation_that_is_not_reported_is_the_length() {
    let mut rec = record(false, "f", 0);
    rec[16..20].copy_from_slice(&(ATTR_FILE_LINKCOUNT | ATTR_FILE_TOTALSIZE).to_le_bytes());
    let ent = parse_record(&rec).unwrap();
    assert_eq!((ent.logical, ent.physical), (51_200, 51_200));
    // A negative length counts as nothing.
    rec[56..64].copy_from_slice(&(-1i64).to_le_bytes());
    let ent = parse_record(&rec).unwrap();
    assert_eq!((ent.logical, ent.physical), (0, 0));
}

#[test]
fn only_some_errors_mean_that_bulk_reads_are_missing() {
    for code in [libc::EINVAL, libc::ENOTSUP, libc::EOPNOTSUPP, libc::ENOSYS] {
        assert!(is_unsupported(&BulkError::Os(code), &codes()));
    }
    assert!(!is_unsupported(&BulkError::Os(libc::EACCES), &codes()));
    assert_eq!(reply(-1), Reply::Failed);
    assert_eq!(reply(0), Reply::End);
    assert_eq!(reply(3), Reply::Records(3));
}

#[test]
fn the_buffer_starts_empty() {
    assert_eq!(Buffer::new().0, vec![0u8; 256 * 1024]);
    assert_eq!(Buffer::default().0.len(), 256 * 1024);
}
