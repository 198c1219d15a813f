use os_str_pattern::os_str::{OsStr, OsStringPrototyping, OsString};
use os_str_pattern::pattern::Pattern;

fn utf8_str() -> &'static str {
    "a\u{e9} \u{1f4a9}"
}

fn utf8_osstring() -> OsString {
    OsString::from_str(utf8_str())
}

fn non_utf8_osstring() -> OsString {
    let string = OsString::from_bytes(vec![0xFF]).unwrap();
    assert!(string.as_os_str().to_str().is_none());
    string
}

fn collect_split(mut s: os_str_pattern::os_str::Split<'_>) -> Vec<(usize, usize)> {
    let mut v = Vec::new();
    while let Some(p) = s.next() {
        v.push(p);
    }
    v
}

fn collect_rsplit(mut s: os_str_pattern::os_str::RSplit<'_>) -> Vec<(usize, usize)> {
    let mut v = Vec::new();
    while let Some(p) = s.next() {
        v.push(p);
    }
    v
}

fn collect_matches(mut m: os_str_pattern::os_str::Matches<'_>) -> Vec<usize> {
    let mut v = Vec::new();
    while let Some(p) = m.next() {
        v.push(p);
    }
    v
}

fn collect_rmatches(mut m: os_str_pattern::os_str::RMatches<'_>) -> Vec<usize> {
    let mut v = Vec::new();
    while let Some(p) = m.next() {
        v.push(p);
    }
    v
}

#[test]
fn osstring_eq_smoke() {
    assert_eq!(OsString::new().as_os_str().as_bytes(), OsString::new().as_os_str().as_bytes());
    let string = OsString::from_str("abc");
    assert_eq!(utf8_osstring().as_os_str().as_bytes(), utf8_osstring().as_os_str().as_bytes());
    assert!(OsString::new().as_os_str().as_bytes() != utf8_osstring().as_os_str().as_bytes());
    assert!(utf8_osstring().as_os_str().as_bytes() != string.as_os_str().as_bytes());
    assert_eq!(
        non_utf8_osstring().as_os_str().as_bytes(),
        non_utf8_osstring().as_os_str().as_bytes()
    );
}

#[test]
fn osstring_from_bytes() {
    let a = OsString::from_bytes(utf8_str().as_bytes().to_vec()).unwrap();
    let b = OsString::from_str(utf8_str());
    assert_eq!(a.as_os_str().as_bytes(), b.as_os_str().as_bytes());
}

#[test]
fn osstring_into_string() {
    match utf8_osstring().into_string() {
        Ok(s) => assert_eq!(s, utf8_str().to_string()),
        Err(_) => panic!("valid text must convert"),
    }
    let e = non_utf8_osstring().into_string();
    assert!(e.is_err());
    assert_eq!(e.unwrap_err().as_os_str().as_bytes(), &[0xFFu8]);
}

#[test]
fn osstring_push() {
    let mut string = OsString::new();
    string.push(&OsStr::new("foo"));
    string.push(&OsStr::new("x"));
    let utf8 = utf8_osstring();
    string.push(&utf8.as_os_str());
    let expected = format!("foox{}", utf8_str());
    assert_eq!(string.as_os_str().as_bytes(), expected.as_bytes());
    let bad = non_utf8_osstring();
    string.push(&bad.as_os_str());
    assert!(string.into_string().is_err());
}

#[test]
fn osstr_is_empty() {
    assert!(OsString::new().as_os_str().is_empty());
    assert!(!utf8_osstring().as_os_str().is_empty());
    assert!(!non_utf8_osstring().as_os_str().is_empty());
}

#[test]
fn osstr_to_str() {
    assert_eq!(utf8_osstring().as_os_str().to_str(), Some(utf8_str().to_string()));
    assert_eq!(non_utf8_osstring().as_os_str().to_str(), None);
}

#[test]
fn osstr_to_string_lossy() {
    assert_eq!(utf8_osstring().as_os_str().to_string_lossy(), utf8_str().to_string());
    assert_eq!(non_utf8_osstring().as_os_str().to_string_lossy(), "\u{FFFD}".to_string());
}

#[test]
fn osstr_to_bytes() {
    assert_eq!(utf8_osstring().as_os_str().to_bytes(), Some(utf8_str().as_bytes().to_vec()));
    assert_eq!(non_utf8_osstring().as_os_str().to_bytes(), Some(vec![0xFFu8]));
}

#[test]
fn osstring_compare_str() {
    assert_eq!(utf8_osstring().as_os_str().as_bytes(), utf8_str().as_bytes());
    assert!(non_utf8_osstring().as_os_str().as_bytes() != "".as_bytes());
}

#[test]
fn osstring() {
    assert!(OsString::with_capacity(10).capacity() >= 10);
    let string = OsString::from_str("hello");
    assert_eq!(string.into_string_lossy(), "hello");
    let mut string = OsString::from_str("hello");
    string.clear();
    assert_eq!(string.as_os_str().as_bytes(), OsString::from_str("").as_os_str().as_bytes());
}

#[test]
fn osstr() {
    let owned = OsString::from_str("hello");
    let string = owned.as_os_str();
    let bytes = b"hello";
    assert!(!string.is_empty());
    assert_eq!(string.len(), 5);
    assert!(string.contains_os(&OsStr::new("ll")));
    assert!(string.starts_with_os(&OsStr::new("he")));
    assert!(string.ends_with_os(&OsStr::new("lo")));
    assert!(string.contains(Pattern::from_str("ll")));
    assert!(string.starts_with(Pattern::from_str("he")));
    assert!(string.ends_with(Pattern::from_str("lo")));
    let pieces = collect_split(string.split(Pattern::from_char('l')));
    let texts: Vec<&[u8]> = pieces.iter().map(|&(a, b)| &bytes[a..b]).collect();
    assert_eq!(texts, vec![&b"he"[..], &b""[..], &b"o"[..]]);
    let pieces = collect_rsplit(string.rsplit(Pattern::from_char('l')));
    let texts: Vec<&[u8]> = pieces.iter().map(|&(a, b)| &bytes[a..b]).collect();
    assert_eq!(texts, vec![&b"o"[..], &b""[..], &b"he"[..]]);
    let pieces = string.split_terminator(Pattern::from_char('o'));
    let texts: Vec<&[u8]> = pieces.iter().map(|&(a, b)| &bytes[a..b]).collect();
    assert_eq!(texts, vec![&b"hell"[..]]);
    let pieces = string.rsplit_terminator(Pattern::from_char('o'));
    let texts: Vec<&[u8]> = pieces.iter().map(|&(a, b)| &bytes[a..b]).collect();
    assert_eq!(texts, vec![&b"hell"[..]]);
    let pieces = string.splitn(2, Pattern::from_char('l'));
    let texts: Vec<&[u8]> = pieces.iter().map(|&(a, b)| &bytes[a..b]).collect();
    assert_eq!(texts, vec![&b"he"[..], &b"lo"[..]]);
    let pieces = string.rsplitn(2, Pattern::from_char('l'));
    let texts: Vec<&[u8]> = pieces.iter().map(|&(a, b)| &bytes[a..b]).collect();
    assert_eq!(texts, vec![&b"o"[..], &b"hel"[..]]);
    assert_eq!(collect_matches(string.matches(Pattern::from_char('l'))), vec![2, 3]);
    assert_eq!(collect_rmatches(string.rmatches(Pattern::from_char('l'))), vec![3, 2]);
    assert!(string.starts_with_str("he"));
    let rest = string.remove_prefix_str("he").unwrap();
    assert_eq!(rest.as_bytes(), b"llo");
    let (c, rest) = string.slice_shift_char().unwrap();
    assert_eq!(c, 'h');
    assert_eq!(rest.as_bytes(), b"ello");
    let (pre, rest) = string.split_off_str('l').unwrap();
    assert_eq!(pre, "he");
    assert_eq!(rest.as_bytes(), b"lo");
}

#[test]
fn invalid_byte_sections_and_split() {
    let bytes: &[u8] = b"he\xFFllo";
    let s = OsStr::from_bytes(bytes);
    let mut sections = s.utf8_sections();
    assert_eq!(sections.next(), Some((0, "he".to_string())));
    assert_eq!(sections.next(), Some((3, "llo".to_string())));
    assert_eq!(sections.next(), None);
    assert_eq!(collect_matches(s.matches(Pattern::from_char('l'))), vec![3, 4]);
    let pieces = collect_split(s.split(Pattern::from_char('l')));
    assert_eq!(pieces, vec![(0, 3), (4, 4), (5, 6)]);
    assert_eq!(&bytes[0..3], b"he\xFF");
    assert_eq!(&bytes[4..4], b"");
    assert_eq!(&bytes[5..6], b"o");
}

#[test]
fn all_invalid_buffer() {
    let bytes: &[u8] = b"\xFF";
    let s = OsStr::from_bytes(bytes);
    assert_eq!(collect_matches(s.matches(Pattern::from_char('x'))), Vec::<usize>::new());
    assert_eq!(collect_matches(s.matches(Pattern::from_str("hi"))), Vec::<usize>::new());
    assert_eq!(collect_split(s.split(Pattern::from_char('x'))), vec![(0, 1)]);
    let mut sections = s.utf8_sections();
    assert_eq!(sections.next(), None);
}

#[test]
fn contains_raw_bytes() {
    let h = OsStr::from_bytes(b"ab\xFFcd");
    assert!(h.contains_os(&OsStr::from_bytes(b"")));
    assert!(h.contains_os(&OsStr::from_bytes(b"b\xFFc")));
    assert!(h.contains_os(&OsStr::from_bytes(b"\xFF")));
    assert!(!h.contains_os(&OsStr::from_bytes(b"ac")));
    assert!(h.starts_with_os(&OsStr::from_bytes(b"ab")));
    assert!(h.ends_with_os(&OsStr::from_bytes(b"cd")));
    assert!(!h.starts_with_os(&OsStr::from_bytes(b"b")));
}

#[test]
fn forward_backward_symmetry() {
    let bytes: &[u8] = b"xaxa\xFFxax";
    let s = OsStr::from_bytes(bytes);
    let fwd = collect_matches(s.matches(Pattern::from_char('x')));
    let mut bwd = collect_rmatches(s.rmatches(Pattern::from_char('x')));
    bwd.reverse();
    assert_eq!(fwd, bwd);
}

#[test]
fn split_reconstructs_buffer() {
    let bytes: &[u8] = b"he\xFFllo world";
    let s = OsStr::from_bytes(bytes);
    let pat = b"l";
    let pieces = collect_split(s.split(Pattern::from_char('l')));
    let mut rebuilt: Vec<u8> = Vec::new();
    for (k, &(a, b)) in pieces.iter().enumerate() {
        if k > 0 {
            rebuilt.extend_from_slice(pat);
        }
        rebuilt.extend_from_slice(&bytes[a..b]);
    }
    assert_eq!(rebuilt, bytes.to_vec());
}

#[test]
fn clone_iterators_agree() {
    let bytes: &[u8] = b"one\xFFtwo one";
    let s = OsStr::from_bytes(bytes);
    let it = s.matches(Pattern::from_str("one"));
    let a = collect_matches(it.clone());
    let b = collect_matches(it);
    assert_eq!(a, b);
    let sp = s.split(Pattern::from_char('o'));
    let a = collect_split(sp.clone());
    let b = collect_split(sp);
    assert_eq!(a, b);
}

#[test]
fn convergence_from_both_ends() {
    let bytes: &[u8] = b"alpha beta";
    let mut m = os_str_pattern::split_bytes::MatchImpl::new(bytes, Pattern::from_char('a'));
    assert_eq!(m.next(), Some(0));
    assert_eq!(m.next_back(), Some(9));
    assert_eq!(m.next(), Some(4));
    assert_eq!(m.next_back(), None);
    assert_eq!(m.next(), None);
}

#[test]
fn to_cstring_bytes() {
    let s = OsStr::new("ab");
    assert_eq!(s.to_cstring(), Some(vec![b'a', b'b', 0]));
    let with_nul = OsStr::from_bytes(b"a\0b");
    assert_eq!(with_nul.to_cstring(), None);
}

#[test]
fn lossy_collapses_runs() {
    let s = OsStr::from_bytes(b"a\xFF\xFE\xFFb");
    assert_eq!(s.to_string_lossy(), "a\u{FFFD}b".to_string());
    let t = OsStr::from_bytes(b"\xFFa\xFF");
    assert_eq!(t.to_string_lossy(), "\u{FFFD}a\u{FFFD}".to_string());
}

#[test]
fn shift_char_multibyte() {
    let s = OsStr::new("\u{e9}x");
    let (c, rest) = s.slice_shift_char().unwrap();
    assert_eq!(c, '\u{e9}');
    assert_eq!(rest.as_bytes(), b"x");
    let invalid = OsStr::from_bytes(b"\xFFab");
    assert!(invalid.slice_shift_char().is_none());
    let empty = OsStr::new("");
    assert!(empty.slice_shift_char().is_none());
}

#[test]
fn empty_pattern_matches_boundaries() {
    let s = OsStr::new("ab");
    assert!(s.contains(Pattern::from_str("")));
    assert_eq!(collect_matches(s.matches(Pattern::from_str(""))), vec![0, 1, 2]);
    let mut b = collect_rmatches(s.rmatches(Pattern::from_str("")));
    b.reverse();
    assert_eq!(b, vec![0, 1, 2]);
    let pieces = collect_split(s.split(Pattern::from_str("")));
    assert_eq!(pieces, vec![(0, 0), (0, 1), (1, 2), (2, 2)]);
    let rpieces = collect_rsplit(s.rsplit(Pattern::from_str("")));
    assert_eq!(rpieces, vec![(2, 2), (1, 2), (0, 1), (0, 0)]);
    let t = OsStr::new("a\u{e9}");
    assert_eq!(collect_matches(t.matches(Pattern::from_str(""))), vec![0, 1, 3]);
}

#[test]
fn empty_pattern_stays_out_of_invalid_runs() {
    let inv = OsStr::from_bytes(b"\xFF");
    assert_eq!(collect_matches(inv.matches(Pattern::from_str(""))), Vec::<usize>::new());
    assert!(!inv.contains(Pattern::from_str("")));
    assert_eq!(collect_split(inv.split(Pattern::from_str(""))), vec![(0, 1)]);
    let mixed = OsStr::from_bytes(b"a\xFFb");
    assert_eq!(collect_matches(mixed.matches(Pattern::from_str(""))), vec![0, 1, 2, 3]);
}

#[test]
fn split_from_both_ends() {
    let bytes: &[u8] = b"a.b.c";
    let mut sp = os_str_pattern::split_bytes::SplitImpl::new(bytes, Pattern::from_char('.'));
    assert_eq!(sp.next(), Some((0, 1)));
    assert_eq!(sp.next_back(), Some((4, 5)));
    assert_eq!(sp.next(), Some((2, 3)));
    assert_eq!(sp.next(), None);
    assert_eq!(sp.next_back(), None);
}

#[test]
fn slice_concat_ext() {
    let items = vec![OsString::from_str("Hello"), OsString::from_str("world")];
    assert_eq!(os_str_pattern::os_str::concat(&items).as_os_str().as_bytes(), b"Helloworld");
    let sep = OsString::from_str(" ");
    assert_eq!(
        os_str_pattern::os_str::join(&items, &sep.as_os_str()).as_os_str().as_bytes(),
        b"Hello world"
    );
}
