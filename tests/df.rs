use cmdparse::df::DfLine;
use cmdparse::error::ParseError;

#[test]
fn df_recovers_named_columns() {
    let input = "Filesystem     Size  Used Avail Use% Mounted on\n/dev/sda1       50G   20G   28G  42% /\n";
    let parsed = DfLine::parse(input).unwrap();
    assert_eq!(parsed.len(), 1);
    let r = &parsed[0];
    assert_eq!(r.filesystem, Some("/dev/sda1"));
    assert_eq!(r.size, Some(50 * 1024 * 1024 * 1024));
    assert_eq!(r.used, Some(20 * 1024 * 1024 * 1024));
    assert_eq!(r.available, Some(28 * 1024 * 1024 * 1024));
    assert_eq!(r.use_percent, Some(42));
    assert_eq!(r.mounted_on, Some("/"));
    assert_eq!(r.fs_type, None);
    assert_eq!(r.inodes, None);
    assert_eq!(r.kibi_blocks, None);
    assert_eq!(r.file, None);
}

#[test]
fn df_inode_and_type_columns() {
    let input = "Filesystem     Type   Inodes  IUsed   IFree IUse% Mounted on\n\
                 /dev/sda1      ext4  3276800 412345 2864455   13% /\n\
                 tmpfs          tmpfs 2035233      1 2035232    1% /dev/shm\n";
    let parsed = DfLine::parse(input).unwrap();
    assert_eq!(parsed.len(), 2);
    assert_eq!(parsed[0].fs_type, Some("ext4"));
    assert_eq!(parsed[0].inodes, Some(3276800));
    assert_eq!(parsed[0].iused, Some(412345));
    assert_eq!(parsed[0].ifree, Some(2864455));
    assert_eq!(parsed[0].iuse_percent, Some(13));
    assert_eq!(parsed[1].filesystem, Some("tmpfs"));
    assert_eq!(parsed[1].mounted_on, Some("/dev/shm"));
}

#[test]
fn df_kibi_blocks() {
    let input = "Filesystem     1K-blocks     Used Available Use% Mounted on\n\
                 /dev/sda1       51475068 20012345  28836803  41% /\n";
    let parsed = DfLine::parse(input).unwrap();
    assert_eq!(parsed[0].kibi_blocks, Some(51475068));
    assert_eq!(parsed[0].used, Some(20012345));
    assert_eq!(parsed[0].available, Some(28836803));
    assert_eq!(parsed[0].use_percent, Some(41));
}

#[test]
fn df_header_only() {
    assert_eq!(DfLine::parse("Filesystem Size\n"), Ok(vec![]));
}

#[test]
fn df_empty_input() {
    assert_eq!(DfLine::parse(""), Err(ParseError::EmptyInput));
    assert_eq!(DfLine::parse("\n\n"), Err(ParseError::EmptyInput));
}

#[test]
fn df_bad_number() {
    let input = "Filesystem Size\nfoo        abc\n";
    assert_eq!(
        DfLine::parse(input),
        Err(ParseError::NumberFormat {
            field: "size".to_string(),
            row: 1,
            token: "abc".to_string(),
        })
    );
}

#[test]
fn df_same_input_same_result() {
    let input = "Filesystem     Size  Used Avail Use% Mounted on\n/dev/sda1       50G   20G   28G  42% /\n";
    assert_eq!(DfLine::parse(input), DfLine::parse(input));
}

#[test]
fn df_error_names_field() {
    let input = "Filesystem Avail\nfoo        1KK\n";
    assert_eq!(
        DfLine::parse(input),
        Err(ParseError::NumberFormat {
            field: "available".to_string(),
            row: 1,
            token: "1KK".to_string(),
        })
    );
}
