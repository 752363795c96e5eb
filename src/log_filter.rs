//! Text sent for printing, and the filter that keeps only error blocks of
//! Elixir/Phoenix logs.
use vstd::prelude::*;
use crate::text::{chars_eq, chars_of, contains_exec, contains_seq, lines_chars, lines_of};

verus! {

/// A print request received over the network.
#[derive(Debug, Clone)]
pub enum PrintPayload {
    Image(Vec<u8>),
    Text { text: String, source: String },
}

/// What the upload server reports.
#[derive(Debug, Clone)]
pub enum UploadEvent {
    Started(String),
    PhotoReceived(Vec<u8>),
    TextReceived { text: String, source: String },
    Error(String),
}

/// A log line that starts a block of another level than error.
pub open spec fn other_level(l: Seq<char>) -> bool {
    contains_seq(l, "[info]"@) || contains_seq(l, "[debug]"@) || contains_seq(l, "[warning]"@)
        || contains_seq(l, "[notice]"@)
}

/// The lines kept so far, and whether the last level marker seen was `[error]`.
pub open spec fn error_fold(ls: Seq<Seq<char>>) -> (Seq<Seq<char>>, bool)
    decreases ls.len(),
{
    if ls.len() == 0 {
        (Seq::empty(), false)
    } else {
        let (kept, in_error) = error_fold(ls.drop_last());
        let l = ls.last();
        if contains_seq(l, "[error]"@) {
            (kept.push(l), true)
        } else if other_level(l) {
            (kept, false)
        } else if in_error {
            (kept.push(l), true)
        } else {
            (kept, false)
        }
    }
}

/// Lines joined with `\n`.
pub open spec fn join_lines(ls: Seq<Seq<char>>) -> Seq<char>
    decreases ls.len(),
{
    if ls.len() == 0 {
        Seq::empty()
    } else if ls.len() == 1 {
        ls[0]
    } else {
        join_lines(ls.drop_last()) + seq!['\n'] + ls.last()
    }
}

/// The `[error]` blocks of a log: each line with `[error]` and the lines after
/// it up to the next level marker.
pub open spec fn elixir_errors(text: Seq<char>) -> Seq<char> {
    join_lines(error_fold(lines_of(text)).0)
}

/// Keeps only `[error]` log blocks from Elixir/Phoenix output.
pub fn filter_elixir_errors(text: &str) -> (r: String)
    ensures
        r@ == elixir_errors(text@),
{
    let chars = chars_of(text);
    let lines = lines_chars(&chars);
    let ghost ls = lines@.map_values(|x: Vec<char>| x@);
    let error_tag = chars_of("[error]");
    let info_tag = chars_of("[info]");
    let debug_tag = chars_of("[debug]");
    let warning_tag = chars_of("[warning]");
    let notice_tag = chars_of("[notice]");
    let mut result = String::new();
    let mut kept: usize = 0;
    let ghost mut kept_lines: Seq<Seq<char>> = Seq::empty();
    let mut in_error_block = false;
    let mut i: usize = 0;
    assert(ls.subrange(0, 0) =~= Seq::<Seq<char>>::empty());
    while i < lines.len()
        invariant
            i <= lines@.len(),
            ls == lines@.map_values(|x: Vec<char>| x@),
            error_tag@ == "[error]"@,
            info_tag@ == "[info]"@,
            debug_tag@ == "[debug]"@,
            warning_tag@ == "[warning]"@,
            notice_tag@ == "[notice]"@,
            error_fold(ls.subrange(0, i as int)) == (kept_lines, in_error_block),
            kept == kept_lines.len(),
            kept <= i,
            result@ == join_lines(kept_lines),
        decreases lines.len() - i,
    {
        let line = &lines[i];
        assert(ls.subrange(0, i + 1).drop_last() =~= ls.subrange(0, i as int));
        assert(ls.subrange(0, i + 1).last() == line@);
        let keep;
        if contains_exec(line.as_slice(), error_tag.as_slice()) {
            in_error_block = true;
            keep = true;
        } else if contains_exec(line.as_slice(), info_tag.as_slice()) || contains_exec(
            line.as_slice(),
            debug_tag.as_slice(),
        ) || contains_exec(line.as_slice(), warning_tag.as_slice()) || contains_exec(
            line.as_slice(),
            notice_tag.as_slice(),
        ) {
            in_error_block = false;
            keep = false;
        } else {
            keep = in_error_block;
        }
        if keep {
            let ghost before = kept_lines;
            if kept > 0 {
                result.push('\n');
            }
            let mut j: usize = 0;
            let ghost r0 = result@;
            while j < line.len()
                invariant
                    j <= line@.len(),
                    result@ == r0 + line@.subrange(0, j as int),
                decreases line.len() - j,
            {
                result.push(line[j]);
                j = j + 1;
                assert(result@ =~= r0 + line@.subrange(0, j as int));
            }
            assert(line@.subrange(0, line@.len() as int) =~= line@);
            proof {
                kept_lines = kept_lines.push(line@);
                assert(kept_lines.drop_last() =~= before);
                assert(result@ =~= join_lines(kept_lines));
            }
            kept = kept + 1;
        }
        i = i + 1;
    }
    assert(ls.subrange(0, ls.len() as int) =~= ls);
    result
}

/// Sources whose output is an Elixir/Phoenix log.
pub open spec fn is_elixir_source(source: Seq<char>) -> bool {
    source == "phx.server"@ || source == "elixir"@ || source == "mix"@
}

/// Filters text by the log format of the program that produced it.
pub fn filter_by_source(text: &str, source: &str) -> (r: String)
    ensures
        r@ == if is_elixir_source(source@) {
            elixir_errors(text@)
        } else {
            text@
        },
{
    let s = chars_of(source);
    if chars_eq(s.as_slice(), chars_of("phx.server").as_slice()) || chars_eq(
        s.as_slice(),
        chars_of("elixir").as_slice(),
    ) || chars_eq(s.as_slice(), chars_of("mix").as_slice()) {
        filter_elixir_errors(text)
    } else {
        text.to_owned()
    }
}

} // verus!
