//! The machine's name, as its files say it.
use vstd::prelude::*;

use crate::model::optional;
use crate::text;
use crate::text::trim;

verus! {

/// Where the machine's name is: the live value first, then what it was called at boot.
pub const HOSTNAME_FILES: [&'static str; 2] = ["/proc/sys/kernel/hostname", "/etc/hostname"];

/// The first of several file contents that was read and is not blank, trimmed.
pub open spec fn first_hostname(files: Seq<Option<Seq<char>>>) -> Option<Seq<char>>
    decreases files.len(),
{
    if files.len() == 0 {
        None
    } else {
        match files[0] {
            Some(content) => if trim(content).len() > 0 {
                Some(trim(content))
            } else {
                first_hostname(files.drop_first())
            },
            None => first_hostname(files.drop_first()),
        }
    }
}

/// What files that may not have been read say.
pub open spec fn file_views(files: Seq<Option<String>>) -> Seq<Option<Seq<char>>> {
    files.map_values(|f: Option<String>| optional(f))
}

/// The hostname that the hostname files say, in order of preference; `None` for one that
/// could not be read.
pub fn read_hostname(files: &[Option<String>]) -> (r: Option<String>)
    ensures
        match r {
            Some(s) => first_hostname(file_views(files@)) == Some(s@),
            None => first_hostname(file_views(files@)) is None,
        },
{
    let ghost all = file_views(files@);
    let mut i: usize = 0;
    assert(all.skip(0) =~= all);
    while i < files.len()
        invariant
            i <= files@.len(),
            all == file_views(files@),
            first_hostname(all) == first_hostname(all.skip(i as int)),
        decreases files@.len() - i,
    {
        proof {
            assert(all.skip(i as int)[0] == optional(files@[i as int]));
            assert(all.skip(i as int).drop_first() =~= all.skip(i + 1));
        }
        match &files[i] {
            Some(content) => {
                let name = text::trim_text(content.as_str());
                if !name.as_str().is_empty() {
                    return Some(name);
                }
            },
            None => {},
        }
        i = i + 1;
    }
    None
}

/// The machine is called what the first file with something in it says, without white space
/// around it: files in front of that one that could not be read or are blank do not count, and
/// neither does anything behind it.
pub proof fn law_the_first_file_that_says_something_counts(
    blank: Seq<Option<Seq<char>>>,
    content: Seq<char>,
    rest: Seq<Option<Seq<char>>>,
)
    requires
        forall|i: int|
            0 <= i < blank.len() ==> ((#[trigger] blank[i]) matches Some(c) ==> trim(c).len() == 0),
    ensures
        trim(content).len() > 0 ==> first_hostname(blank + seq![Some(content)] + rest) == Some(
            trim(content),
        ),
        first_hostname(blank) is None,
    decreases blank.len(),
{
    let all = blank + seq![Some(content)] + rest;
    if blank.len() > 0 {
        let less = blank.drop_first();
        assert(blank[0] matches Some(c) ==> trim(c).len() == 0);
        assert forall|i: int| 0 <= i < less.len() implies ((#[trigger] less[i]) matches Some(c)
            ==> trim(c).len() == 0) by {
            assert(less[i] == blank[i + 1]);
        }
        assert(all.drop_first() =~= less + seq![Some(content)] + rest);
        law_the_first_file_that_says_something_counts(less, content, rest);
    }
}

} // verus!
