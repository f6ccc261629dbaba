use stardict::error::Error;
use stardict::ifo::{Ifo, Version};

fn failure(text: &str) -> Error {
    match Ifo::new(text) {
        Ok(_) => panic!("the text was accepted"),
        Err(e) => e,
    }
}

#[test]
fn every_known_key_is_read() {
    let text = "StarDict's dict ifo file\n\
        version=3.0.0\n\
        bookname=A = B\n\
        wordcount=12\n\
        synwordcount=3\n\
        idxfilesize=4096\n\
        idxoffsetbits=64\n\
        author=someone\n\
        email=a@b.c\n\
        website=http://example.org\n\
        description=first<br>second\n\
        date=2020.01.02\n\
        sametypesequence=tm\n\
        dicttype=wordnet\n\
        unknown=ignored\n";
    let ifo = Ifo::new(text).unwrap();
    assert!(matches!(ifo.version, Version::V300));
    assert_eq!(ifo.bookname, "A = B");
    assert_eq!(ifo.wordcount, 12);
    assert_eq!(ifo.synwordcount, 3);
    assert_eq!(ifo.idxfilesize, 4096);
    assert_eq!(ifo.idxoffsetbits, 64);
    assert_eq!(ifo.author, "someone");
    assert_eq!(ifo.email, "a@b.c");
    assert_eq!(ifo.website, "http://example.org");
    assert_eq!(ifo.description, "first<br>second");
    assert_eq!(ifo.date, "2020.01.02");
    assert_eq!(ifo.sametypesequence, "tm");
    assert_eq!(ifo.dicttype, "wordnet");
}

#[test]
fn defaults_hold_where_nothing_is_said() {
    let ifo = Ifo::new("").unwrap();
    assert!(matches!(ifo.version, Version::V242));
    assert_eq!(ifo.bookname, "");
    assert_eq!(ifo.wordcount, 0);
    assert_eq!(ifo.synwordcount, 0);
    assert_eq!(ifo.idxfilesize, 0);
    assert_eq!(ifo.idxoffsetbits, 32);
    assert_eq!(ifo.sametypesequence, "");
    let ifo = Ifo::new("no equals sign here\n\nversion=2.4.2").unwrap();
    assert!(matches!(ifo.version, Version::V242));
    assert_eq!(ifo.idxoffsetbits, 32);
}

#[test]
fn lines_may_end_in_carriage_returns() {
    let ifo = Ifo::new("version=3.0.0\r\nbookname=Book\r\nwordcount=7\r\nsametypesequence=m").unwrap();
    assert!(matches!(ifo.version, Version::V300));
    assert_eq!(ifo.bookname, "Book");
    assert_eq!(ifo.wordcount, 7);
    assert_eq!(ifo.sametypesequence, "m");
}

#[test]
fn later_lines_win() {
    let ifo = Ifo::new("bookname=one\nbookname=two\n=nokey\nbookname\n").unwrap();
    assert_eq!(ifo.bookname, "two");
    let ifo = Ifo::new("version=3.0.0\nversion=2.4.2\n").unwrap();
    assert!(matches!(ifo.version, Version::V300));
}

#[test]
fn other_versions_are_refused() {
    match failure("bookname=x\nversion=2.4.8\nwordcount=zz\n") {
        Error::InvalidVersion(v) => assert_eq!(v, "2.4.8"),
        e => panic!("{:?}", e),
    }
    match failure("version=\n") {
        Error::InvalidVersion(v) => assert_eq!(v, ""),
        e => panic!("{:?}", e),
    }
    assert!(matches!(failure("version= 3.0.0\n"), Error::InvalidVersion(_)));
}

#[test]
fn numbers_that_are_none_are_refused() {
    assert!(matches!(failure("wordcount=twelve\n"), Error::InvalidIfoValue("wordcount")));
    assert!(matches!(failure("synwordcount=-1\n"), Error::InvalidIfoValue("synwordcount")));
    assert!(matches!(failure("idxfilesize=\n"), Error::InvalidIfoValue("idxfilesize")));
    assert!(matches!(failure("idxoffsetbits=64 \n"), Error::InvalidIfoValue("idxoffsetbits")));
    assert!(matches!(
        failure("wordcount=340282366920938463463374607431768211456\n"),
        Error::InvalidIfoValue("wordcount")
    ));
    assert_eq!(Ifo::new("wordcount=4294967295\n").unwrap().wordcount, 4294967295);
    assert_eq!(Ifo::new("wordcount=+007\n").unwrap().wordcount, 7);
}
