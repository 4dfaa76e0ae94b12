//! The report of a search: what is printed for the files found.

use vstd::prelude::*;
use vstd::string::StringExecFns;
use crate::text::{decimal, decimal_string};

verus! {

/// The line that announces the search for `query`.
pub open spec fn thinking_line(query: Seq<char>) -> Seq<char> {
    ">>> 正在思考: '"@ + query + "' ..."@
}

/// The lines printed for the files found: a notice when there are none,
/// else a heading and one numbered line per file, from 1.
pub open spec fn report_lines(found: Seq<Seq<char>>) -> Seq<Seq<char>> {
    if found.len() == 0 {
        seq!["没有找到相关结果。"@]
    } else {
        seq!["\n>>> 找到最相关的 5 个文件:"@] + Seq::new(
            found.len(),
            |i: int| decimal((i + 1) as nat) + ". "@ + found[i],
        )
    }
}

/// The line that announces the search for `query`.
pub fn search_banner(query: &str) -> (line: String)
    ensures
        line@ == thinking_line(query@),
{
    let mut line = String::from_str(">>> 正在思考: '");
    line.append(query);
    line.append("' ...");
    line
}

/// The lines printed for the files `found`.
pub fn search_report(found: &Vec<String>) -> (lines: Vec<String>)
    ensures
        lines.deep_view() == report_lines(found.deep_view()),
{
    let mut lines: Vec<String> = Vec::new();
    if found.len() == 0 {
        lines.push(String::from_str("没有找到相关结果。"));
        assert(lines.deep_view() =~= report_lines(found.deep_view()));
        return lines;
    }
    lines.push(String::from_str("\n>>> 找到最相关的 5 个文件:"));
    let ghost head = lines.deep_view();
    let ghost fv = found.deep_view();
    assert(head =~= seq!["\n>>> 找到最相关的 5 个文件:"@]);
    for i in 0..found.len()
        invariant
            fv == found.deep_view(),
            lines.deep_view() == head + Seq::new(
                i as nat,
                |j: int| decimal((j + 1) as nat) + ". "@ + fv[j],
            ),
    {
        let mut line = decimal_string((i + 1) as u64);
        line.append(". ");
        line.append(found[i].as_str());
        let ghost before = lines.deep_view();
        let ghost old_lines = lines@;
        let ghost lv = line@;
        lines.push(line);
        assert(lines.deep_view() =~= before.push(lv)) by {
            assert forall|k: int| 0 <= k < before.len() implies #[trigger] lines.deep_view()[k]
                == before[k] by {
                assert(lines@[k] == old_lines[k]);
            }
        }
        assert(lv == decimal((i + 1) as nat) + ". "@ + fv[i as int]);
        assert(before.push(lv) =~= head + Seq::new(
            (i + 1) as nat,
            |j: int| decimal((j + 1) as nat) + ". "@ + fv[j],
        ));
    }
    lines
}

} // verus!
