//! Searching the lines of texts for a pattern.

use vstd::prelude::*;
use crate::text::{
    append_chars, chars_of, contains_text, copy_chars, decimal, decimal_of, lines, lines_of,
    lowercased, same_text, stands_in, string_of, to_lowercase,
};

verus! {

/// How to search and what to print.
#[derive(Debug)]
pub struct Flags {
    print_line_numbers: bool,
    print_file_names: bool,
    case_insensitive: bool,
    invert: bool,
    match_entire_lines: bool,
}

/// The flags in the model.
pub struct FlagsView {
    /// `-n`: print the number of each matching line before it.
    pub print_line_numbers: bool,
    /// `-l`: print only the names of the files with a matching line.
    pub print_file_names: bool,
    /// `-i`: compare without regard to case.
    pub case_insensitive: bool,
    /// `-v`: take the lines that do not match.
    pub invert: bool,
    /// `-x`: a line matches only as a whole.
    pub match_entire_lines: bool,
}

/// Whether `flag` is one of the five flags.
pub open spec fn known_flag(flag: Seq<char>) -> bool {
    flag == "-n"@ || flag == "-l"@ || flag == "-i"@ || flag == "-v"@ || flag == "-x"@
}

/// Whether `flags` lists `flag`.
pub open spec fn lists(flags: Seq<&str>, flag: Seq<char>) -> bool {
    exists|i: int| 0 <= i < flags.len() && (#[trigger] flags[i])@ == flag
}

impl View for Flags {
    type V = FlagsView;

    closed spec fn view(&self) -> FlagsView {
        FlagsView {
            print_line_numbers: self.print_line_numbers,
            print_file_names: self.print_file_names,
            case_insensitive: self.case_insensitive,
            invert: self.invert,
            match_entire_lines: self.match_entire_lines,
        }
    }
}

impl Flags {
    /// The flags that `flags` lists.
    pub fn new(flags: &[&str]) -> (r: Self)
        requires
            forall|i: int| 0 <= i < flags@.len() ==> known_flag((#[trigger] flags@[i])@),
        ensures
            r@.print_line_numbers == lists(flags@, "-n"@),
            r@.print_file_names == lists(flags@, "-l"@),
            r@.case_insensitive == lists(flags@, "-i"@),
            r@.invert == lists(flags@, "-v"@),
            r@.match_entire_lines == lists(flags@, "-x"@),
    {
        let mut res = Self {
            print_line_numbers: false,
            print_file_names: false,
            case_insensitive: false,
            invert: false,
            match_entire_lines: false,
        };
        proof {
            lemma_flags_differ();
        }
        let mut i: usize = 0;
        while i < flags.len()
            invariant
                i <= flags@.len(),
                forall|k: int| 0 <= k < flags@.len() ==> known_flag((#[trigger] flags@[k])@),
                res.print_line_numbers == lists(flags@.take(i as int), "-n"@),
                res.print_file_names == lists(flags@.take(i as int), "-l"@),
                res.case_insensitive == lists(flags@.take(i as int), "-i"@),
                res.invert == lists(flags@.take(i as int), "-v"@),
                res.match_entire_lines == lists(flags@.take(i as int), "-x"@),
            decreases flags@.len() - i,
        {
            let f = chars_of(flags[i]);
            proof {
                assert(known_flag(flags@[i as int]@));
                lemma_flags_differ();
                lemma_lists_longer(flags@, i as int, "-n"@);
                lemma_lists_longer(flags@, i as int, "-l"@);
                lemma_lists_longer(flags@, i as int, "-i"@);
                lemma_lists_longer(flags@, i as int, "-v"@);
                lemma_lists_longer(flags@, i as int, "-x"@);
            }
            if same_text(&f, "-n") {
                res.print_line_numbers = true;
            } else if same_text(&f, "-l") {
                res.print_file_names = true;
            } else if same_text(&f, "-i") {
                res.case_insensitive = true;
            } else if same_text(&f, "-v") {
                res.invert = true;
            } else {
                res.match_entire_lines = true;
            }
            i += 1;
        }
        proof {
            assert(flags@.take(i as int) =~= flags@);
        }
        res
    }
}

/// The five flags are five different texts.
proof fn lemma_flags_differ()
    ensures
        "-n"@ != "-l"@,
        "-n"@ != "-i"@,
        "-n"@ != "-v"@,
        "-n"@ != "-x"@,
        "-l"@ != "-i"@,
        "-l"@ != "-v"@,
        "-l"@ != "-x"@,
        "-i"@ != "-v"@,
        "-i"@ != "-x"@,
        "-v"@ != "-x"@,
{
    reveal_strlit("-n");
    reveal_strlit("-l");
    reveal_strlit("-i");
    reveal_strlit("-v");
    reveal_strlit("-x");
    assert("-n"@[1] == 'n');
    assert("-l"@[1] == 'l');
    assert("-i"@[1] == 'i');
    assert("-v"@[1] == 'v');
    assert("-x"@[1] == 'x');
}

/// A list with one more flag lists what it listed, and that flag.
proof fn lemma_lists_longer(flags: Seq<&str>, i: int, flag: Seq<char>)
    requires
        0 <= i < flags.len(),
    ensures
        lists(flags.take(i + 1), flag) == (lists(flags.take(i), flag) || flags[i]@ == flag),
{
    let longer = flags.take(i + 1);
    let shorter = flags.take(i);
    if lists(shorter, flag) {
        let k = choose|k: int| 0 <= k < shorter.len() && (#[trigger] shorter[k])@ == flag;
        assert(longer[k]@ == flag);
    }
    if flags[i]@ == flag {
        assert(longer[i]@ == flag);
    }
    if lists(longer, flag) {
        let k = choose|k: int| 0 <= k < longer.len() && (#[trigger] longer[k])@ == flag;
        if k < i {
            assert(shorter[k]@ == flag);
        }
    }
}

/// Whether `line` is taken in a search for `pattern` under `flags`.
pub open spec fn line_taken(pattern: Seq<char>, flags: FlagsView, line: Seq<char>) -> bool {
    let l = if flags.case_insensitive {
        lowercased(line)
    } else {
        line
    };
    let p = if flags.case_insensitive {
        lowercased(pattern)
    } else {
        pattern
    };
    let hit = if flags.match_entire_lines {
        l == p
    } else {
        stands_in(p, l)
    };
    hit != flags.invert
}

/// How a taken line is printed: after the name of its file if more than one
/// file is searched, and after its number, counted from 1, if the flags ask
/// for line numbers.
pub open spec fn printed(
    flags: FlagsView,
    many: bool,
    path: Seq<char>,
    number: nat,
    line: Seq<char>,
) -> Seq<char> {
    if many && flags.print_line_numbers {
        path + seq![':'] + decimal_of(number) + seq![':'] + line
    } else if many {
        path + seq![':'] + line
    } else if flags.print_line_numbers {
        decimal_of(number) + seq![':'] + line
    } else {
        line
    }
}

/// What the first `n` lines of a file add to the output when each taken line
/// is printed.
pub open spec fn taken_lines(
    pattern: Seq<char>,
    flags: FlagsView,
    many: bool,
    path: Seq<char>,
    all: Seq<Seq<char>>,
    n: int,
) -> Seq<Seq<char>>
    decreases n,
{
    if n <= 0 {
        Seq::empty()
    } else {
        let before = taken_lines(pattern, flags, many, path, all, n - 1);
        if line_taken(pattern, flags, all[n - 1]) {
            before.push(printed(flags, many, path, n as nat, all[n - 1]))
        } else {
            before
        }
    }
}

/// Whether one of the lines `all` is taken.
pub open spec fn any_taken(pattern: Seq<char>, flags: FlagsView, all: Seq<Seq<char>>) -> bool {
    exists|i: int| 0 <= i < all.len() && line_taken(pattern, flags, #[trigger] all[i])
}

/// What one file adds to the output: its name alone if the flags ask for
/// file names and a line of it is taken, nothing if they ask for file names
/// and none is; else its taken lines, printed.
pub open spec fn file_output(
    pattern: Seq<char>,
    flags: FlagsView,
    many: bool,
    path: Seq<char>,
    content: Seq<char>,
) -> Seq<Seq<char>> {
    let all = lines_of(content);
    if flags.print_file_names {
        if any_taken(pattern, flags, all) {
            seq![path]
        } else {
            Seq::empty()
        }
    } else {
        taken_lines(pattern, flags, many, path, all, all.len() as int)
    }
}

/// What the first `n` of the files add to the output, file after file.
pub open spec fn search_output(
    pattern: Seq<char>,
    flags: FlagsView,
    files: Seq<(String, String)>,
    n: int,
) -> Seq<Seq<char>>
    decreases n,
{
    if n <= 0 {
        Seq::empty()
    } else {
        search_output(pattern, flags, files, n - 1) + file_output(
            pattern,
            flags,
            files.len() > 1,
            files[n - 1].0@,
            files[n - 1].1@,
        )
    }
}

/// The texts of the strings `v`.
pub open spec fn string_views(v: Seq<String>) -> Seq<Seq<char>> {
    Seq::new(v.len(), |i: int| v[i]@)
}

/// Whether `line` is taken in a search for `pattern` under `flags`;
/// `lower_pattern` is the pattern in lower case.
fn takes(pattern: &Vec<char>, lower_pattern: &Vec<char>, flags: &Flags, line: &Vec<char>) -> (r:
    bool)
    requires
        lower_pattern@ == lowercased(pattern@),
    ensures
        r == line_taken(pattern@, flags@, line@),
{
    let hit = if flags.case_insensitive {
        let s = to_lowercase(line);
        if flags.match_entire_lines {
            same_chars(&s, lower_pattern)
        } else {
            contains_text(&s, lower_pattern)
        }
    } else {
        if flags.match_entire_lines {
            same_chars(line, pattern)
        } else {
            contains_text(line, pattern)
        }
    };
    hit != flags.invert
}

/// Whether `a` and `b` are the same text.
fn same_chars(a: &Vec<char>, b: &Vec<char>) -> (r: bool)
    ensures
        r == (a@ == b@),
{
    if a.len() != b.len() {
        return false;
    }
    let mut i: usize = 0;
    while i < a.len()
        invariant
            i <= a@.len(),
            a@.len() == b@.len(),
            forall|k: int| 0 <= k < i ==> a@[k] == b@[k],
        decreases a@.len() - i,
    {
        if a[i] != b[i] {
            return false;
        }
        i += 1;
    }
    proof {
        assert(a@ =~= b@);
    }
    true
}

/// The line `line` with the number `number`, as it is printed.
fn print_line(flags: &Flags, many: bool, path: &Vec<char>, number: usize, line: &Vec<char>) -> (r:
    String)
    ensures
        r@ == printed(flags@, many, path@, number as nat, line@),
{
    let mut out: Vec<char> = Vec::new();
    if many {
        append_chars(&mut out, path);
        out.push(':');
    }
    if flags.print_line_numbers {
        let digits = decimal(number);
        append_chars(&mut out, &digits);
        out.push(':');
    }
    append_chars(&mut out, line);
    proof {
        assert(out@ =~= printed(flags@, many, path@, number as nat, line@));
    }
    string_of(&out)
}

/// Searches the texts of `files`, each given with its name, for `pattern`
/// under `flags`, and returns what is to be printed, line by line.
pub fn grep(pattern: &str, flags: &Flags, files: &[(String, String)]) -> (r: Vec<String>)
    ensures
        string_views(r@) == search_output(pattern@, flags@, files@, files@.len() as int),
{
    let pat = chars_of(pattern);
    let lower_pat = to_lowercase(&pat);
    let many = files.len() > 1;
    let mut res: Vec<String> = Vec::new();
    let mut f: usize = 0;
    while f < files.len()
        invariant
            f <= files@.len(),
            pat@ == pattern@,
            lower_pat@ == lowercased(pat@),
            many == (files@.len() > 1),
            string_views(res@) == search_output(pattern@, flags@, files@, f as int),
        decreases files@.len() - f,
    {
        let path = chars_of(files[f].0.as_str());
        let all = lines(files[f].1.as_str());
        let ghost before = string_views(res@);
        let ghost model = crate::text::texts(all@);
        proof {
            assert(model.len() == all@.len());
        }
        if flags.print_file_names {
            let mut found = false;
            let mut i: usize = 0;
            while i < all.len() && !found
                invariant
                    i <= all@.len(),
                    lower_pat@ == lowercased(pat@),
                    model == crate::text::texts(all@),
                    found ==> any_taken(pat@, flags@, model),
                    !found ==> forall|k: int|
                        0 <= k < i ==> !line_taken(pat@, flags@, #[trigger] model[k]),
                decreases all@.len() - i + if found { 0int } else { 1int },
            {
                if takes(&pat, &lower_pat, flags, &all[i]) {
                    proof {
                        assert(line_taken(pat@, flags@, model[i as int]));
                    }
                    found = true;
                } else {
                    i += 1;
                }
            }
            if found {
                res.push(string_of(&path));
                proof {
                    assert(string_views(res@) =~= before + seq![path@]);
                }
            } else {
                proof {
                    assert(string_views(res@) =~= before + Seq::<Seq<char>>::empty());
                }
            }
        } else {
            let mut i: usize = 0;
            while i < all.len()
                invariant
                    i <= all@.len(),
                    lower_pat@ == lowercased(pat@),
                    model == crate::text::texts(all@),
                    model.len() == all@.len(),
                    string_views(res@) == before + taken_lines(
                        pat@,
                        flags@,
                        many,
                        path@,
                        model,
                        i as int,
                    ),
                decreases all@.len() - i,
            {
                let ghost so_far = string_views(res@);
                if takes(&pat, &lower_pat, flags, &all[i]) {
                    res.push(print_line(flags, many, &path, i + 1, &all[i]));
                    proof {
                        assert(model[i as int] == all@[i as int]@);
                        assert(string_views(res@) =~= so_far.push(
                            printed(flags@, many, path@, (i + 1) as nat, model[i as int]),
                        ));
                    }
                } else {
                    proof {
                        assert(model[i as int] == all@[i as int]@);
                    }
                }
                i += 1;
                proof {
                    assert(string_views(res@) =~= before + taken_lines(
                        pat@,
                        flags@,
                        many,
                        path@,
                        model,
                        i as int,
                    ));
                }
            }
        }
        f += 1;
    }
    res
}

} // verus!
