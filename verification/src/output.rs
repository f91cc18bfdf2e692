//! Rendering records as delimited lines.  The field delimiter and record
//! terminator are fixed single characters.

use vstd::prelude::*;
use vstd::string::StringExecFns;

verus! {

pub const DELIMITER: char = '\t';

pub const TERMINATOR: char = '\n';

/// The rest of a line: each remaining field preceded by the delimiter,
/// the terminator at the end.
pub open spec fn line_tail(fields: Seq<Seq<char>>) -> Seq<char>
    decreases fields.len(),
{
    if fields.len() == 0 {
        "\n"@
    } else {
        "\t"@ + fields[0] + line_tail(fields.drop_first())
    }
}

/// A whole line: the fields joined by the delimiter and closed by the
/// terminator; no fields, no line.
pub open spec fn line_of(fields: Seq<Seq<char>>) -> Seq<char> {
    if fields.len() == 0 {
        Seq::empty()
    } else {
        fields[0] + line_tail(fields.drop_first())
    }
}

/// Joins one record's fields into an output line.
#[verifier::loop_isolation(false)]
pub fn format_line(fields: &Vec<String>) -> (line: String)
    ensures
        line@ == line_of(fields.deep_view()),
{
    let ghost fv = fields.deep_view();
    let mut line = String::new();
    if fields.len() == 0 {
        proof {
            assert(line@ =~= line_of(fv));
        }
        return line;
    }
    line.append(fields[0].as_str());
    proof {
        assert(line@ =~= fv[0]);
        assert(fv.subrange(1, fv.len() as int) =~= fv.drop_first());
    }
    let mut i: usize = 1;
    while i < fields.len()
        invariant
            1 <= i <= fields@.len(),
            line_of(fv) == line@ + line_tail(fv.subrange(i as int, fv.len() as int)),
        decreases fields@.len() - i,
    {
        let ghost rest = fv.subrange(i as int, fv.len() as int);
        let ghost line_before = line@;
        line.append("\t");
        line.append(fields[i].as_str());
        proof {
            assert(rest[0] == fv[i as int]);
            assert(rest.drop_first() =~= fv.subrange(i as int + 1, fv.len() as int));
            assert(line@ =~= line_before + "\t"@ + fv[i as int]);
            assert(line_before + ("\t"@ + fv[i as int] + line_tail(
                fv.subrange(i as int + 1, fv.len() as int),
            )) =~= (line_before + "\t"@ + fv[i as int]) + line_tail(
                fv.subrange(i as int + 1, fv.len() as int),
            ));
        }
        i = i + 1;
    }
    let ghost line_before = line@;
    line.append("\n");
    proof {
        assert(fv.subrange(fv.len() as int, fv.len() as int) =~= Seq::<Seq<char>>::empty());
        assert(line_of(fv) =~= line_before + "\n"@);
    }
    line
}

} // verus!
