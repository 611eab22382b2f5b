use rucrack::command::{parse, sanitize, Op};
use rucrack::crack::{coordinate, plan_jobs, try_key, Progress};
use rucrack::hexfile::{decode_r4c, first_bad_digit};
use rucrack::keypool::KeyPool;
use rucrack::node::Worker;
use rucrack::overflow::{WrappedInc, WrappedStep};
use rucrack::util::{is_english, u8_vector};

#[test]
fn wrapped_inc_and_dec() {
    assert_eq!(255u8.inc(), 0);
    assert_eq!(7u8.inc(), 8);
    assert_eq!(0u8.dec(), 255);
    assert_eq!(7u8.dec(), 6);
}

#[test]
fn wrapped_step_adds_modulo_256() {
    assert_eq!(200u8.step(&100), 44);
    assert_eq!(3u8.step(&0), 3);
    assert_eq!(0u8.step(&255), 255);
}

#[test]
fn u8_vector_is_zeros() {
    assert_eq!(u8_vector(3), vec![0, 0, 0]);
    assert_eq!(u8_vector(0), Vec::<u8>::new());
}

#[test]
fn is_english_accepts_everything() {
    assert!(is_english("anything".to_string()));
    assert!(is_english(String::new()));
}

fn words(v: &[&str]) -> Vec<String> {
    v.iter().map(|s| s.to_string()).collect()
}

#[test]
fn sanitize_splits_and_trims() {
    assert_eq!(sanitize("slave http://1.2.3.4:80\n".to_string()), words(&["slave", "http://1.2.3.4:80"]));
    assert_eq!(sanitize("a  b".to_string()), words(&["a", "", "b"]));
    assert_eq!(sanitize(String::new()), words(&[""]));
    assert_eq!(sanitize("\tlist\r\n".to_string()), words(&["list"]));
    assert_eq!(sanitize(" start".to_string()), words(&["", "start"]));
}

#[test]
fn parse_known_commands() {
    assert!(matches!(parse(words(&["list"])), Ok(Op::ListSlaves)));
    assert!(matches!(parse(words(&["start"])), Ok(Op::Start)));
    match parse(words(&["iv-file", "iv.r4c"])) {
        Ok(Op::IvFile(f)) => assert_eq!(f, "iv.r4c"),
        _ => panic!("expected an iv file"),
    }
    match parse(words(&["cipher-file", "c.r4c"])) {
        Ok(Op::CipherFile(f)) => assert_eq!(f, "c.r4c"),
        _ => panic!("expected a cipher file"),
    }
}

#[test]
fn parse_slave_url() {
    match parse(words(&["slave", "http://127.0.0.1:8080"])) {
        Ok(Op::AddSlave(u)) => assert_eq!(u.as_str(), "http://127.0.0.1:8080/"),
        _ => panic!("expected a slave"),
    }
}

#[test]
fn parse_slave_bad_url_gives_the_parser_error() {
    match parse(words(&["slave", "not a url"])) {
        Err(m) => assert_eq!(m, "relative URL without a base"),
        _ => panic!("expected an error"),
    }
}

#[test]
fn parse_unknown_command_is_refused() {
    match parse(words(&["bogus"])) {
        Err(m) => assert_eq!(m, "command not supported"),
        _ => panic!("expected an error"),
    }
    assert!(parse(words(&[""])).is_err());
}

#[test]
fn decode_r4c_pairs_hex_digits() {
    assert_eq!(decode_r4c("0aFF\n"), vec![0x0a, 0xff]);
    assert_eq!(decode_r4c("12"), vec![0x12]);
    assert_eq!(decode_r4c("abc"), vec![0xab]);
    assert_eq!(decode_r4c(""), Vec::<u8>::new());
    assert_eq!(decode_r4c("\n"), Vec::<u8>::new());
    assert_eq!(decode_r4c("DeadBeef"), vec![0xde, 0xad, 0xbe, 0xef]);
}

#[test]
fn try_key_accepts_utf8_plaintext() {
    let key = KeyPool::new(1, 1, 0);
    let t = try_key(&key, Some(b"hello".to_vec()));
    assert_eq!(t.found, Some(vec![0, 0]));
    assert_eq!(t.plaintext, Some("hello".to_string()));
    assert_eq!(t.next.dynamic_bytes, vec![1]);
}

#[test]
fn try_key_rejects_invalid_utf8_and_failed_decryption() {
    let key = KeyPool::new(0, 1, 0);
    let t = try_key(&key, Some(vec![0xff, 0xfe]));
    assert!(t.found.is_none());
    assert!(t.plaintext.is_none());
    assert_eq!(t.next.dynamic_bytes, vec![1]);
    let t = try_key(&key, None);
    assert!(t.found.is_none());
    assert!(t.plaintext.is_none());
}

#[test]
fn coordinate_stops_on_a_candidate() {
    assert_eq!(coordinate(0, 2, Some(true), Some(1)), Progress::KeyFound);
    assert_eq!(coordinate(1, 2, Some(true), None), Progress::KeyFound);
}

#[test]
fn coordinate_counts_finished_workers() {
    assert_eq!(coordinate(0, 2, Some(false), Some(1)), Progress::Waiting(1));
    assert_eq!(coordinate(1, 2, None, Some(1)), Progress::AllFinished);
    assert_eq!(coordinate(0, 2, None, None), Progress::Waiting(0));
    assert_eq!(coordinate(0, 0, None, None), Progress::AllFinished);
}

#[test]
fn plan_jobs_splits_the_key_space() {
    let jobs = plan_jobs(vec![1, 2, 3], 2);
    assert_eq!(jobs.len(), 2);
    for j in &jobs {
        assert_eq!(j.static_ms_bytes, vec![1, 2, 3]);
        assert_eq!(j.dynamic_bytes.len(), 13);
        assert!(j.static_ls_bytes.is_empty());
        assert_eq!(j.to_vec().len(), 16);
    }
    assert_eq!(jobs[0].dynamic_bytes[0], 0);
    assert_eq!(jobs[0].dynamic_ms_cap, 128);
    assert_eq!(jobs[1].dynamic_bytes[0], 128);
    assert_eq!(jobs[1].dynamic_ms_cap, 0);
}

#[test]
fn worker_builder_records_its_address() {
    let url = hyper::Url::parse("http://127.0.0.1:8080").unwrap();
    let w = Worker::builder(4, url.clone());
    assert_eq!(w.ip_address(), &url);
    assert!(format!("{:?}", w).contains("available_threads: 4"));
}

#[test]
fn dec_undoes_inc_for_every_byte() {
    for b in 0..=255u8 {
        assert_eq!(b.inc().dec(), b);
        assert_eq!(b.dec().inc(), b);
    }
}

#[test]
fn steps_add_up_modulo_256() {
    assert_eq!(250u8.step(&3).step(&10), 250u8.step(&13));
    assert_eq!(250u8.step(&13), 7);
    assert_eq!(0u8.step(&200).step(&100), 44);
}

#[test]
fn first_bad_digit_finds_the_first_non_hex_digit() {
    assert_eq!(first_bad_digit("0aFF\n"), None);
    assert_eq!(first_bad_digit(""), None);
    assert_eq!(first_bad_digit("12g4z"), Some(2));
    assert_eq!(first_bad_digit("12\r\n"), Some(2));
    assert_eq!(first_bad_digit("\n\n"), Some(0));
}

#[test]
fn worker_clone_keeps_its_address() {
    let url = hyper::Url::parse("http://10.1.2.3:99").unwrap();
    let w = Worker::builder(2, url.clone());
    let c = w.clone();
    assert_eq!(c.ip_address(), &url);
}

#[test]
fn parse_slave_keeps_the_typed_address() {
    match parse(words(&["slave", "http://192.168.0.7:4567/x"])) {
        Ok(Op::AddSlave(u)) => {
            assert_eq!(u, hyper::Url::parse("http://192.168.0.7:4567/x").unwrap());
        }
        _ => panic!("expected a slave"),
    }
}

#[test]
fn worker_text_is_its_address() {
    let url = hyper::Url::parse("http://127.0.0.1:8080").unwrap();
    let w = Worker::builder(4, url.clone());
    assert_eq!(w.to_string(), "http://127.0.0.1:8080/");
    assert_eq!(w.to_string(), url.to_string());
}
