//! The `.ifo` file: the metadata of a dictionary, one `key=value` a line.
use vstd::prelude::*;
use crate::error::{Error, Result};
use crate::text::{
    chars_before, chars_before_shift, chars_of, find_char, parse_unsigned, parsed_unsigned, substring,
};

verus! {

/// The two versions of the format that are read.
#[derive(Clone, Copy, Debug)]
pub enum Version {
    V242,
    V300,
}

/// What the `.ifo` file says of the dictionary.
#[derive(Clone, Debug)]
pub struct Ifo {
    pub version: Version,
    pub bookname: String,
    pub wordcount: usize,
    pub synwordcount: usize,
    pub idxfilesize: usize,
    pub idxoffsetbits: usize,
    pub author: String,
    pub email: String,
    pub website: String,
    pub description: String,
    pub date: String,
    pub sametypesequence: String,
    pub dicttype: String,
}

/// The metadata as values.
pub struct IfoView {
    pub version: Version,
    pub bookname: Seq<char>,
    pub wordcount: usize,
    pub synwordcount: usize,
    pub idxfilesize: usize,
    pub idxoffsetbits: usize,
    pub author: Seq<char>,
    pub email: Seq<char>,
    pub website: Seq<char>,
    pub description: Seq<char>,
    pub date: Seq<char>,
    pub sametypesequence: Seq<char>,
    pub dicttype: Seq<char>,
}

/// Why a line of the file is refused.
pub enum IfoFault {
    /// The version is none that is read; the value is the one found.
    Version(Seq<char>),
    /// The value of this numeric field is no number.
    Value(&'static str),
}

/// The metadata before any line is read: version 2.4.2, offsets of 32
/// bits, everything else empty.
pub open spec fn initial_ifo() -> IfoView {
    IfoView {
        version: Version::V242,
        bookname: Seq::empty(),
        wordcount: 0,
        synwordcount: 0,
        idxfilesize: 0,
        idxoffsetbits: 32,
        author: Seq::empty(),
        email: Seq::empty(),
        website: Seq::empty(),
        description: Seq::empty(),
        date: Seq::empty(),
        sametypesequence: Seq::empty(),
        dicttype: Seq::empty(),
    }
}

/// The number that a numeric field is set to, or the fault of the field.
pub open spec fn number_field(val: Seq<char>, field: &'static str) -> std::result::Result<
    usize,
    IfoFault,
> {
    match parsed_unsigned(val, usize::MAX as nat) {
        Some(n) => Ok(n as usize),
        None => Err(IfoFault::Value(field)),
    }
}

/// The metadata after a line that sets `key` to `val`. Keys that are not
/// known change nothing.
pub open spec fn applied(ifo: IfoView, key: Seq<char>, val: Seq<char>) -> std::result::Result<
    IfoView,
    IfoFault,
> {
    if key == "version"@ {
        if val == "2.4.2"@ {
            Ok(ifo)
        } else if val == "3.0.0"@ {
            Ok(IfoView { version: Version::V300, ..ifo })
        } else {
            Err(IfoFault::Version(val))
        }
    } else if key == "bookname"@ {
        Ok(IfoView { bookname: val, ..ifo })
    } else if key == "wordcount"@ {
        match number_field(val, "wordcount") {
            Ok(n) => Ok(IfoView { wordcount: n, ..ifo }),
            Err(e) => Err(e),
        }
    } else if key == "synwordcount"@ {
        match number_field(val, "synwordcount") {
            Ok(n) => Ok(IfoView { synwordcount: n, ..ifo }),
            Err(e) => Err(e),
        }
    } else if key == "idxfilesize"@ {
        match number_field(val, "idxfilesize") {
            Ok(n) => Ok(IfoView { idxfilesize: n, ..ifo }),
            Err(e) => Err(e),
        }
    } else if key == "idxoffsetbits"@ {
        match number_field(val, "idxoffsetbits") {
            Ok(n) => Ok(IfoView { idxoffsetbits: n, ..ifo }),
            Err(e) => Err(e),
        }
    } else if key == "author"@ {
        Ok(IfoView { author: val, ..ifo })
    } else if key == "email"@ {
        Ok(IfoView { email: val, ..ifo })
    } else if key == "website"@ {
        Ok(IfoView { website: val, ..ifo })
    } else if key == "description"@ {
        Ok(IfoView { description: val, ..ifo })
    } else if key == "date"@ {
        Ok(IfoView { date: val, ..ifo })
    } else if key == "sametypesequence"@ {
        Ok(IfoView { sametypesequence: val, ..ifo })
    } else if key == "dicttype"@ {
        Ok(IfoView { dicttype: val, ..ifo })
    } else {
        Ok(ifo)
    }
}

/// The line without the carriage return that it may end in.
pub open spec fn trimmed(line: Seq<char>) -> Seq<char> {
    if line.len() > 0 && line.last() == '\r' {
        line.drop_last()
    } else {
        line
    }
}

/// The metadata after one line: a line without `=` changes nothing; the
/// others set the key before the first `=` to the value behind it.
pub open spec fn applied_line(ifo: IfoView, line: Seq<char>) -> std::result::Result<
    IfoView,
    IfoFault,
> {
    let eq = chars_before(line, 0, '=') as int;
    if eq >= line.len() {
        Ok(ifo)
    } else {
        applied(ifo, line.subrange(0, eq), line.subrange(eq + 1, line.len() as int))
    }
}

/// The metadata after the lines of `text` from `pos` on, or the fault of
/// the first line that is refused.
pub open spec fn parse_lines(text: Seq<char>, pos: int, ifo: IfoView) -> std::result::Result<
    IfoView,
    IfoFault,
>
    decreases
        (if pos < text.len() {
            text.len() - pos
        } else {
            0
        }),
{
    let end = pos + chars_before(text, pos, '\n');
    if pos < 0 || pos >= text.len() {
        Ok(ifo)
    } else {
        match applied_line(ifo, trimmed(text.subrange(pos, end))) {
            Ok(next) => parse_lines(text, end + 1, next),
            Err(e) => Err(e),
        }
    }
}

/// Whether `s` is the word `word`.
fn is_word(s: &String, word: &str) -> (b: bool)
    ensures
        b == (s@ == word@),
{
    *s == word.to_owned()
}

/// Reads a numeric field.
fn read_number_field(val: &String, field: &'static str) -> (r: Result<usize>)
    ensures
        match r {
            Ok(n) => number_field(val@, field) == Ok::<_, IfoFault>(n),
            Err(e) => e == Error::InvalidIfoValue(field) && number_field(val@, field) == Err::<
                usize,
                _,
            >(IfoFault::Value(field)),
        },
{
    match parse_unsigned(val.as_str(), usize::MAX as u64) {
        Some(n) => Ok(n as usize),
        None => Err(Error::InvalidIfoValue(field)),
    }
}

/// Whether the failure `e` is the one that stands for the fault `fault`.
pub open spec fn is_fault(e: Error, fault: IfoFault) -> bool {
    match fault {
        IfoFault::Version(val) => e matches Error::InvalidVersion(v) && v@ == val,
        IfoFault::Value(field) => e == Error::InvalidIfoValue(field),
    }
}

impl Ifo {
    pub open spec fn view(&self) -> IfoView {
        IfoView {
            version: self.version,
            bookname: self.bookname@,
            wordcount: self.wordcount,
            synwordcount: self.synwordcount,
            idxfilesize: self.idxfilesize,
            idxoffsetbits: self.idxoffsetbits,
            author: self.author@,
            email: self.email@,
            website: self.website@,
            description: self.description@,
            date: self.date@,
            sametypesequence: self.sametypesequence@,
            dicttype: self.dicttype@,
        }
    }

    /// Sets the field that `key` names to `val`.
    fn apply(&mut self, key: &String, val: String) -> (r: Result<()>)
        ensures
            match r {
                Ok(_) => applied(old(self)@, key@, val@) == Ok::<_, IfoFault>(final(self)@),
                Err(e) => applied(old(self)@, key@, val@) is Err && is_fault(
                    e,
                    applied(old(self)@, key@, val@)->Err_0,
                ),
            },
    {
        if is_word(key, "version") {
            if is_word(&val, "2.4.2") {
            } else if is_word(&val, "3.0.0") {
                self.version = Version::V300;
            } else {
                return Err(Error::InvalidVersion(val));
            }
        } else if is_word(key, "bookname") {
            self.bookname = val;
        } else if is_word(key, "wordcount") {
            match read_number_field(&val, "wordcount") {
                Ok(n) => {
                    self.wordcount = n;
                },
                Err(e) => {
                    return Err(e);
                },
            }
        } else if is_word(key, "synwordcount") {
            match read_number_field(&val, "synwordcount") {
                Ok(n) => {
                    self.synwordcount = n;
                },
                Err(e) => {
                    return Err(e);
                },
            }
        } else if is_word(key, "idxfilesize") {
            match read_number_field(&val, "idxfilesize") {
                Ok(n) => {
                    self.idxfilesize = n;
                },
                Err(e) => {
                    return Err(e);
                },
            }
        } else if is_word(key, "idxoffsetbits") {
            match read_number_field(&val, "idxoffsetbits") {
                Ok(n) => {
                    self.idxoffsetbits = n;
                },
                Err(e) => {
                    return Err(e);
                },
            }
        } else if is_word(key, "author") {
            self.author = val;
        } else if is_word(key, "email") {
            self.email = val;
        } else if is_word(key, "website") {
            self.website = val;
        } else if is_word(key, "description") {
            self.description = val;
        } else if is_word(key, "date") {
            self.date = val;
        } else if is_word(key, "sametypesequence") {
            self.sametypesequence = val;
        } else if is_word(key, "dicttype") {
            self.dicttype = val;
        }
        Ok(())
    }

    /// Reads the metadata out of the text of an `.ifo` file.
    pub fn new(text: &str) -> (r: Result<Ifo>)
        ensures
            match r {
                Ok(ifo) => parse_lines(text@, 0, initial_ifo()) == Ok::<_, IfoFault>(ifo@),
                Err(e) => parse_lines(text@, 0, initial_ifo()) is Err && is_fault(
                    e,
                    parse_lines(text@, 0, initial_ifo())->Err_0,
                ),
            },
    {
        let chars = chars_of(text);
        let len: usize = chars.len();
        let mut ifo = Ifo {
            version: Version::V242,
            bookname: String::new(),
            wordcount: 0,
            synwordcount: 0,
            idxfilesize: 0,
            idxoffsetbits: 32,
            author: String::new(),
            email: String::new(),
            website: String::new(),
            description: String::new(),
            date: String::new(),
            sametypesequence: String::new(),
            dicttype: String::new(),
        };
        let mut pos: usize = 0;
        while pos < len
            invariant
                pos <= len == chars@.len(),
                chars@ == text@,
                parse_lines(text@, pos as int, ifo@) == parse_lines(text@, 0, initial_ifo()),
            decreases len - pos,
        {
            proof {
                assert(chars@.subrange(0, len as int) =~= chars@);
            }
            let end = find_char(&chars, pos, len, '\n');
            let stop: usize = if end > pos && chars[end - 1] == '\r' {
                end - 1
            } else {
                end
            };
            let ghost line = trimmed(text@.subrange(pos as int, end as int));
            proof {
                assert(line =~= text@.subrange(pos as int, stop as int));
                assert(chars@.subrange(0, stop as int).subrange(pos as int, stop as int) =~= line);
                chars_before_shift(chars@.subrange(0, stop as int), pos as int, pos as int, '=');
            }
            let eq = find_char(&chars, pos, stop, '=');
            let ghost before = ifo@;
            proof {
                assert(eq - pos == chars_before(line, 0, '='));
            }
            if eq < stop {
                let key = substring(&chars, pos, eq);
                let val = substring(&chars, eq + 1, stop);
                proof {
                    assert(key@ =~= line.subrange(0, eq - pos));
                    assert(val@ =~= line.subrange(eq - pos + 1, line.len() as int));
                }
                match ifo.apply(&key, val) {
                    Ok(_) => {},
                    Err(e) => {
                        return Err(e);
                    },
                }
            }
            proof {
                assert(applied_line(before, line) == Ok::<_, IfoFault>(ifo@));
                assert(parse_lines(text@, pos as int, before) == parse_lines(
                    text@,
                    end + 1,
                    ifo@,
                ));
                assert(parse_lines(text@, len + 1, ifo@) == parse_lines(text@, len as int, ifo@));
            }
            pos = if end < len {
                end + 1
            } else {
                end
            };
        }
        Ok(ifo)
    }
}

} // verus!
