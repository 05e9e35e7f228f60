use foyer_memory::fio::{Fio, IoEngine};
use std::str::FromStr;

#[test]
fn test_io_engine_names() {
    for engine in [IoEngine::IoUring, IoEngine::Psync, IoEngine::LibAio, IoEngine::PosixAio] {
        assert_eq!(IoEngine::from_str(engine.name()), Ok(engine));
        assert_eq!(IoEngine::from_bytes(engine.to_string().as_bytes()), Some(engine));
    }
    assert_eq!(IoEngine::IoUring.name(), "io_uring");
    assert_eq!(IoEngine::Psync.name(), "psync");
    assert_eq!(IoEngine::LibAio.name(), "libaio");
    assert_eq!(IoEngine::PosixAio.to_string(), "posixaio");
}

#[test]
fn test_io_engine_unknown_names() {
    assert_eq!(IoEngine::from_str("sync"), Err("sync".to_string()));
    assert_eq!(IoEngine::from_str(""), Err(String::new()));
    assert_eq!(IoEngine::from_str("psync "), Err("psync ".to_string()));
    assert_eq!(IoEngine::from_str("io_urin"), Err("io_urin".to_string()));
    assert_eq!(IoEngine::from_bytes(b"posixaio1"), None);
}

#[test]
fn test_io_engine_asynchronous() {
    assert!(IoEngine::IoUring.asynchronous());
    assert!(IoEngine::Psync.asynchronous());
    assert!(IoEngine::LibAio.asynchronous());
    assert!(!IoEngine::PosixAio.asynchronous());
}

#[test]
fn test_fio_engines_from_enghelp() {
    let output = b"Available IO engines:\n\tcpuio\n\tmmap\n\tsync\n\tpsync\n\tlibaio\r\n  posixaio  \n\n\tio_uring\n\tpsync\n";
    let fio = Fio::from_enghelp(output);
    assert_eq!(
        fio.io_engines(),
        &vec![IoEngine::Psync, IoEngine::LibAio, IoEngine::PosixAio, IoEngine::IoUring]
    );
    assert!(fio.supports(IoEngine::IoUring));
}

#[test]
fn test_fio_engines_skip_the_heading() {
    let fio = Fio::from_enghelp(b"psync\nlibaio");
    assert_eq!(fio.io_engines(), &vec![IoEngine::LibAio]);
    assert!(!fio.supports(IoEngine::Psync));
    assert!(Fio::from_enghelp(b"").io_engines().is_empty());
    assert!(Fio::from_enghelp(b"psync").io_engines().is_empty());
    assert!(Fio::from_enghelp(b"\n").io_engines().is_empty());
    assert!(Fio::from_enghelp(b"x\npsync extra\n ps ync\n").io_engines().is_empty());
    assert_eq!(Fio::from_enghelp(b"\npsync").io_engines(), &vec![IoEngine::Psync]);
}

fn engines_by_std(output: &[u8]) -> Vec<IoEngine> {
    let mut engines = Vec::new();
    for line in String::from_utf8_lossy(output).split('\n').skip(1) {
        let line = line.trim();
        if line.is_empty() {
            continue;
        }
        if let Ok(engine) = IoEngine::from_str(line) {
            if !engines.contains(&engine) {
                engines.push(engine);
            }
        }
    }
    engines
}

#[test]
fn test_fio_engines_trim_white_space() {
    let output = b"x\n\xc2\xa0psync\xe2\x80\xa8\n\xe3\x80\x80libaio\xe1\x9a\x80\n\xc2\x85io_uring\xe2\x81\x9f\xe2\x80\x8a";
    let fio = Fio::from_enghelp(output);
    assert_eq!(fio.io_engines(), &vec![IoEngine::Psync, IoEngine::LibAio, IoEngine::IoUring]);
    let outputs: [&[u8]; 8] = [
        output,
        b"x\n\xe2\x80psync\n\xe2\x80\x8bposixaio\n libaio\xe2\x80\n",
        b"x\n\xe2\xc2\x85psync\n\xffpsync\npsync\xc2\n",
        b"x\n\xe2\x80\xa8\xe2\x80\xa9\n\xc2\xa0\n\xe2\x80\xafposixaio\x0b\x0c\r\n",
        b"x\n\xe2\x80\xa7psync\npsync\xe2\x80\x8b\n\x80\xa8psync\n",
        b"x\nps\xc2\xa0ync\n\xe3\x80\x80\xe3\x80\x80io_uring\n",
        b"heading only",
        b"x\n\xc2psync\n\xa0psync\n\xc2\xa0\xc2psync\npsync\xc2\xa0\xa0\n",
    ];
    for output in outputs {
        assert_eq!(Fio::from_enghelp(output).io_engines(), &engines_by_std(output));
    }
}
