//! The names of the files of a database: `<db>/config.bin`, `<db>/meta.bin`
//! and, for every level `l` and run `r`, `<db>/<l>/<r>.sst`,
//! `<db>/<l>/<r>.btree` and `<db>/<l>/<r>.bloom`; a level is compacted into
//! `<db>/<l>/compaction.bin`.

use crate::types::{Level, Run};
use vstd::prelude::*;
use vstd::string::StringExecFns;

verus! {

pub const SST_FILE_EXTENSION: &'static str = "sst";

pub const BTREE_FILE_EXTENSION: &'static str = "btree";

pub const BLOOM_FILTER_FILE_EXTENSION: &'static str = "bloom";

/// The character of a decimal digit.
pub open spec fn digit(d: nat) -> char {
    if d == 0 {
        '0'
    } else if d == 1 {
        '1'
    } else if d == 2 {
        '2'
    } else if d == 3 {
        '3'
    } else if d == 4 {
        '4'
    } else if d == 5 {
        '5'
    } else if d == 6 {
        '6'
    } else if d == 7 {
        '7'
    } else if d == 8 {
        '8'
    } else {
        '9'
    }
}

/// The decimal numeral of `n`, without leading zeros.
pub open spec fn decimal(n: nat) -> Seq<char>
    decreases n,
{
    if n < 10 {
        seq![digit(n)]
    } else {
        decimal(n / 10).push(digit(n % 10))
    }
}

/// Calls `usize::to_string`, which writes a number as its decimal numeral.
#[verifier::external_body]
pub(crate) fn decimal_text(n: usize) -> (text: String)
    ensures
        text@ == decimal(n as nat),
{
    n.to_string()
}

pub open spec fn spec_config(db_name: Seq<char>) -> Seq<char> {
    db_name + "/config.bin"@
}

pub open spec fn spec_metadata(db_name: Seq<char>) -> Seq<char> {
    db_name + "/meta.bin"@
}

pub open spec fn spec_sst(run: Run) -> Seq<char> {
    decimal(run as nat) + "."@ + "sst"@
}

pub open spec fn spec_sst_btree(run: Run) -> Seq<char> {
    decimal(run as nat) + "."@ + "btree"@
}

pub open spec fn spec_bloom_filter(run: Run) -> Seq<char> {
    decimal(run as nat) + "."@ + "bloom"@
}

pub open spec fn spec_level_directory(db_name: Seq<char>, level: Level) -> Seq<char> {
    db_name + "/"@ + decimal(level as nat) + "/"@
}

pub open spec fn spec_sst_path(db_name: Seq<char>, level: Level, run: Run) -> Seq<char> {
    spec_level_directory(db_name, level) + spec_sst(run)
}

pub open spec fn spec_sst_btree_path(db_name: Seq<char>, level: Level, run: Run) -> Seq<char> {
    spec_level_directory(db_name, level) + spec_sst_btree(run)
}

pub open spec fn spec_bloom_filter_path(db_name: Seq<char>, level: Level, run: Run) -> Seq<char> {
    spec_level_directory(db_name, level) + spec_bloom_filter(run)
}

pub open spec fn spec_sst_compaction_path(db_name: Seq<char>, level: Level) -> Seq<char> {
    spec_level_directory(db_name, level) + "compaction.bin"@
}

/// Path of the file that holds the configuration of a database.
pub fn config(db_name: &str) -> (path: String)
    ensures
        path@ == spec_config(db_name@),
{
    String::from_str(db_name).concat("/config.bin")
}

/// Path of the file that holds the entry counts of a database.
pub fn metadata(db_name: &str) -> (path: String)
    ensures
        path@ == spec_metadata(db_name@),
{
    String::from_str(db_name).concat("/meta.bin")
}

/// File name of the entries of run `run`.
pub fn sst(run: Run) -> (name: String)
    ensures
        name@ == spec_sst(run),
{
    decimal_text(run).concat(".").concat(SST_FILE_EXTENSION)
}

/// File name of the B-tree index of run `run`.
pub fn sst_btree(run: Run) -> (name: String)
    ensures
        name@ == spec_sst_btree(run),
{
    decimal_text(run).concat(".").concat(BTREE_FILE_EXTENSION)
}

/// File name of the Bloom filter of run `run`.
pub fn bloom_filter(run: Run) -> (name: String)
    ensures
        name@ == spec_bloom_filter(run),
{
    decimal_text(run).concat(".").concat(BLOOM_FILTER_FILE_EXTENSION)
}

/// File name of the scratch file of a compaction.
pub fn sst_compaction() -> (name: String)
    ensures
        name@ == "compaction.bin"@,
{
    String::from_str("compaction.bin")
}

/// Directory of level `level`, with the separator at its end.
pub fn lsm_level_directory(db_name: &str, level: Level) -> (path: String)
    ensures
        path@ == spec_level_directory(db_name@, level),
{
    let number = decimal_text(level);
    String::from_str(db_name).concat("/").concat(number.as_str()).concat("/")
}

/// Path of the entries of run `run` at level `level`.
pub fn sst_path(db_name: &str, level: Level, run: Run) -> (path: String)
    ensures
        path@ == spec_sst_path(db_name@, level, run),
{
    let name = sst(run);
    lsm_level_directory(db_name, level).concat(name.as_str())
}

/// Path of the B-tree index of run `run` at level `level`.
pub fn sst_btree_path(db_name: &str, level: Level, run: Run) -> (path: String)
    ensures
        path@ == spec_sst_btree_path(db_name@, level, run),
{
    let name = sst_btree(run);
    lsm_level_directory(db_name, level).concat(name.as_str())
}

/// Path of the Bloom filter of run `run` at level `level`.
pub fn bloom_filter_path(db_name: &str, level: Level, run: Run) -> (path: String)
    ensures
        path@ == spec_bloom_filter_path(db_name@, level, run),
{
    let name = bloom_filter(run);
    lsm_level_directory(db_name, level).concat(name.as_str())
}

/// Path of the scratch file into which level `level` is compacted.
pub fn sst_compaction_path(db_name: &str, level: Level) -> (path: String)
    ensures
        path@ == spec_sst_compaction_path(db_name@, level),
{
    let name = sst_compaction();
    lsm_level_directory(db_name, level).concat(name.as_str())
}

/// The scratch file of a compaction is no file of a run.
pub proof fn lemma_compaction_path_is_no_run(db_name: Seq<char>, level: Level, run: Run)
    ensures
        spec_sst_compaction_path(db_name, level) != spec_sst_path(db_name, level, run),
{
    reveal_strlit("compaction.bin");
    reveal_strlit("sst");
    reveal_strlit(".");
    let scratch = spec_sst_compaction_path(db_name, level);
    let path = spec_sst_path(db_name, level, run);
    assert(scratch.last() == 'n');
    assert(path.last() == 't');
}

/// The index file of a run is no file of entries.
pub proof fn lemma_btree_path_is_no_run(db_name: Seq<char>, level: Level, run: Run, other: Run)
    ensures
        spec_sst_btree_path(db_name, level, run) != spec_sst_path(db_name, level, other),
{
    reveal_strlit("btree");
    reveal_strlit("sst");
    reveal_strlit(".");
    let index = spec_sst_btree_path(db_name, level, run);
    let path = spec_sst_path(db_name, level, other);
    assert(index.last() == 'e');
    assert(path.last() == 't');
}

/// Whether `c` is a decimal digit.
pub open spec fn is_digit(c: char) -> bool {
    c == '0' || c == '1' || c == '2' || c == '3' || c == '4' || c == '5' || c == '6' || c == '7'
        || c == '8' || c == '9'
}

/// A numeral is made of digits, one at least.
pub proof fn lemma_decimal_digits(n: nat)
    ensures
        decimal(n).len() >= 1,
        forall|i: int| 0 <= i < decimal(n).len() ==> is_digit(#[trigger] decimal(n)[i]),
    decreases n,
{
    if n >= 10 {
        lemma_decimal_digits(n / 10);
    }
}

/// Different digits have different characters.
pub proof fn lemma_digit_injective(a: nat, b: nat)
    requires
        a < 10,
        b < 10,
        digit(a) == digit(b),
    ensures
        a == b,
{
}

/// Different numbers have different numerals.
pub proof fn lemma_decimal_injective(a: nat, b: nat)
    requires
        decimal(a) == decimal(b),
    ensures
        a == b,
    decreases a,
{
    lemma_decimal_digits(a);
    lemma_decimal_digits(b);
    if a < 10 {
        if b >= 10 {
            lemma_decimal_digits(b / 10);
            assert(decimal(b).len() >= 2);
        } else {
            assert(decimal(a)[0] == digit(a));
            assert(decimal(b)[0] == digit(b));
            lemma_digit_injective(a, b);
        }
    } else {
        if b < 10 {
            lemma_decimal_digits(a / 10);
            assert(decimal(a).len() >= 2);
        } else {
            let da = decimal(a / 10);
            let db = decimal(b / 10);
            assert(decimal(a).drop_last() =~= da);
            assert(decimal(b).drop_last() =~= db);
            assert(decimal(a).last() == digit(a % 10));
            assert(decimal(b).last() == digit(b % 10));
            lemma_decimal_injective(a / 10, b / 10);
            lemma_digit_injective(a % 10, b % 10);
        }
    }
}

/// Where two texts are equal, each a numeral followed by a character that
/// is no digit and by a rest, the numerals are equal and the rests are.
pub proof fn lemma_numeral_prefix(a: nat, b: nat, mark: char, rest_a: Seq<char>, rest_b: Seq<char>)
    requires
        !is_digit(mark),
        decimal(a) + seq![mark] + rest_a == decimal(b) + seq![mark] + rest_b,
    ensures
        a == b,
        rest_a == rest_b,
{
    let left = decimal(a) + seq![mark] + rest_a;
    let right = decimal(b) + seq![mark] + rest_b;
    lemma_decimal_digits(a);
    lemma_decimal_digits(b);
    let la = decimal(a).len() as int;
    let lb = decimal(b).len() as int;
    if la < lb {
        assert(left[la] == mark);
        assert(right[la] == decimal(b)[la]);
        assert(false);
    }
    if lb < la {
        assert(right[lb] == mark);
        assert(left[lb] == decimal(a)[lb]);
        assert(false);
    }
    assert(decimal(a) =~= left.take(la));
    assert(decimal(b) =~= right.take(la));
    lemma_decimal_injective(a, b);
    assert(rest_a =~= left.skip(la + 1));
    assert(rest_b =~= right.skip(la + 1));
}

/// The name of a file inside a level: a numeral, a dot and an extension.
pub open spec fn spec_run_file(run: Run, extension: Seq<char>) -> Seq<char> {
    decimal(run as nat) + "."@ + extension
}

/// The path of a file of a run.
pub open spec fn spec_run_path(db_name: Seq<char>, level: Level, run: Run, extension: Seq<char>) -> Seq<
    char,
> {
    spec_level_directory(db_name, level) + spec_run_file(run, extension)
}

/// Files of different levels, of different runs or with different
/// extensions have different paths.
pub proof fn lemma_run_path_injective(
    db_name: Seq<char>,
    level_a: Level,
    run_a: Run,
    extension_a: Seq<char>,
    level_b: Level,
    run_b: Run,
    extension_b: Seq<char>,
)
    requires
        spec_run_path(db_name, level_a, run_a, extension_a) == spec_run_path(
            db_name,
            level_b,
            run_b,
            extension_b,
        ),
    ensures
        level_a == level_b,
        run_a == run_b,
        extension_a == extension_b,
{
    reveal_strlit("/");
    reveal_strlit(".");
    let slash = seq!['/'];
    let dot = seq!['.'];
    assert("/"@ =~= slash);
    assert("."@ =~= dot);
    let tail_a = decimal(run_a as nat) + dot + extension_a;
    let tail_b = decimal(run_b as nat) + dot + extension_b;
    let path_a = spec_run_path(db_name, level_a, run_a, extension_a);
    let path_b = spec_run_path(db_name, level_b, run_b, extension_b);
    let body_a = decimal(level_a as nat) + slash + tail_a;
    let body_b = decimal(level_b as nat) + slash + tail_b;
    assert(path_a =~= (db_name + slash) + body_a);
    assert(path_b =~= (db_name + slash) + body_b);
    let skip = (db_name + slash).len() as int;
    assert(body_a =~= path_a.skip(skip));
    assert(body_b =~= path_b.skip(skip));
    lemma_numeral_prefix(level_a as nat, level_b as nat, '/', tail_a, tail_b);
    lemma_numeral_prefix(run_a as nat, run_b as nat, '.', extension_a, extension_b);
}

/// The scratch file of a compaction is no file of a run, whatever the level
/// of either.
pub proof fn lemma_compaction_path_is_no_run_file(
    db_name: Seq<char>,
    level: Level,
    other_level: Level,
    run: Run,
    extension: Seq<char>,
)
    ensures
        spec_sst_compaction_path(db_name, level) != spec_run_path(
            db_name,
            other_level,
            run,
            extension,
        ),
{
    reveal_strlit("/");
    reveal_strlit(".");
    reveal_strlit("compaction.bin");
    let slash = seq!['/'];
    assert("/"@ =~= slash);
    let scratch = spec_sst_compaction_path(db_name, level);
    let path = spec_run_path(db_name, other_level, run, extension);
    if scratch == path {
        let tail_a = "compaction.bin"@;
        let tail_b = spec_run_file(run, extension);
        let body_a = decimal(level as nat) + slash + tail_a;
        let body_b = decimal(other_level as nat) + slash + tail_b;
        assert(scratch =~= (db_name + slash) + body_a);
        assert(path =~= (db_name + slash) + body_b);
        let skip = (db_name + slash).len() as int;
        assert(body_a =~= scratch.skip(skip));
        assert(body_b =~= path.skip(skip));
        lemma_numeral_prefix(level as nat, other_level as nat, '/', tail_a, tail_b);
        lemma_decimal_digits(run as nat);
        assert(tail_b[0] == decimal(run as nat)[0]);
        assert(tail_a[0] == 'c');
        assert(false);
    }
}

/// The three files of a run are told apart by their extensions.
pub proof fn lemma_extensions_differ()
    ensures
        "sst"@ != "btree"@,
        "sst"@ != "bloom"@,
        "btree"@ != "bloom"@,
{
    reveal_strlit("sst");
    reveal_strlit("btree");
    reveal_strlit("bloom");
    assert("sst"@.len() == 3);
    assert("btree"@.len() == 5);
    assert("bloom"@.len() == 5);
    assert("btree"@[1] == 't');
    assert("bloom"@[1] == 'l');
}

/// The paths of the files of a run, seen as paths of run files.
pub proof fn lemma_paths_are_run_paths(db_name: Seq<char>, level: Level, run: Run)
    ensures
        spec_sst_path(db_name, level, run) == spec_run_path(db_name, level, run, "sst"@),
        spec_sst_btree_path(db_name, level, run) == spec_run_path(db_name, level, run, "btree"@),
        spec_bloom_filter_path(db_name, level, run) == spec_run_path(db_name, level, run, "bloom"@),
{
}

} // verus!
