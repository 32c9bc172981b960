//! The list of symbols to follow: one per line, blanks ignored.
use vstd::prelude::*;

use crate::symbol_table::names;
use crate::text::push_char;

verus! {

/// Blanks that a config line may hold anywhere.
pub open spec fn is_blank(c: char) -> bool {
    c == ' ' || c == '\r' || c == '\t'
}

/// Entries completed so far and the entry being read, after the characters `cs`.
pub open spec fn config_scan(cs: Seq<char>) -> (Seq<Seq<char>>, Seq<char>)
    decreases cs.len(),
{
    if cs.len() == 0 {
        (Seq::empty(), Seq::empty())
    } else {
        let (done, cur) = config_scan(cs.drop_last());
        let c = cs.last();
        if is_blank(c) {
            (done, cur)
        } else if c == '\n' {
            (if cur.len() > 0 {
                done.push(cur)
            } else {
                done
            }, Seq::empty())
        } else {
            (done, cur.push(c))
        }
    }
}

/// The non-empty lines of `cs` with their blanks taken out.
pub open spec fn config_entries(cs: Seq<char>) -> Seq<Seq<char>> {
    let (done, cur) = config_scan(cs);
    if cur.len() > 0 {
        done.push(cur)
    } else {
        done
    }
}

/// Where the list of symbols is kept.
pub struct StockConfigReader {
    file: String,
}

impl StockConfigReader {
    pub closed spec fn path(&self) -> Seq<char> {
        self.file@
    }

    pub fn new() -> (r: Self)
        ensures
            r.path() == "Stocklist.txt"@,
    {
        StockConfigReader { file: "Stocklist.txt".to_owned() }
    }

    /// The path of the list.
    pub fn file(&self) -> (r: &String)
        ensures
            r@ == self.path(),
    {
        &self.file
    }

    /// The symbols that the list's contents name, in order.
    pub fn read_config(&self, data: &Vec<char>) -> (r: Vec<String>)
        ensures
            names(r@) == config_entries(data@),
    {
        let mut config_companies: Vec<String> = Vec::new();
        let mut tmp: String = String::new();
        let mut i: usize = 0;
        while i < data.len()
            invariant
                i <= data@.len(),
                config_scan(data@.take(i as int)) == (names(config_companies@), tmp@),
            decreases data@.len() - i,
        {
            let c = data[i];
            proof {
                assert(data@.take(i + 1).drop_last() =~= data@.take(i as int));
            }
            if c == ' ' || c == '\r' || c == '\t' {
            } else if c == '\n' {
                if !tmp.as_str().is_empty() {
                    let ghost before = config_companies@;
                    config_companies.push(tmp);
                    proof {
                        assert(names(config_companies@) =~= names(before).push(tmp@));
                    }
                }
                tmp = String::new();
            } else {
                push_char(&mut tmp, c);
            }
            i = i + 1;
        }
        proof {
            assert(data@.take(i as int) =~= data@);
        }
        if !tmp.as_str().is_empty() {
            let ghost before = config_companies@;
            config_companies.push(tmp);
            proof {
                assert(names(config_companies@) =~= names(before).push(tmp@));
            }
        }
        config_companies
    }
}

} // verus!
