//! The text files of the command line: commitment logs and proof bundles.
//!
//! A commitment log has one 32-byte hex leaf per line, in leaf order. A bundle
//! is `key=value` lines. Blank lines and `#` comments are allowed in both.

use super::args::{parse_fr, parsed_fr};
use crate::circuit::values;
use crate::field::Fr;
use crate::hex_codec::{encode, hex_encoded};
use crate::interfaces::byte_views;
use crate::prover::{TransferBundle, WithdrawBundle};
use crate::store::Store;
use crate::text::{
    append_str, append_text, chars_of, decimal, field_line, has_prefix, is_remark, is_space,
    is_tight, labelled, lemma_decimal_roundtrip, lemma_field_line, lemma_lines_written,
    lemma_numbers_differ, lemma_trim_tight, lemma_written_push, lines, lines_of, remark, split_once, split_once_of, string_of, strings,
    texts, to_decimal, trim, trim_of, written,
};
use vstd::prelude::*;

verus! {

/// The leaves of the first `n` lines of a log, or what is wrong with the first
/// bad line.
pub open spec fn with_leaves(path: Seq<char>, all: Seq<Seq<char>>, n: nat) -> Result<
    Seq<nat>,
    Seq<char>,
>
    decreases n,
{
    if n == 0 {
        Ok(Seq::empty())
    } else {
        match with_leaves(path, all, (n - 1) as nat) {
            Err(e) => Err(e),
            Ok(leaves) => {
                let line = trim_of(all[n - 1]);
                if is_remark(line) {
                    Ok(leaves)
                } else {
                    match parsed_fr(line) {
                        Err(e) => Err(path + ":"@ + decimal(n) + ": "@ + e),
                        Ok(leaf) => Ok(leaves.push(leaf)),
                    }
                }
            },
        }
    }
}

/// The leaves of a log, or what is wrong with it.
pub open spec fn parsed_log(path: Seq<char>, text: Seq<char>) -> Result<Seq<nat>, Seq<char>> {
    with_leaves(path, lines_of(text), lines_of(text).len())
}

proof fn lemma_leaf_fault_stays(path: Seq<char>, all: Seq<Seq<char>>, m: nat, n: nat)
    requires
        m <= n,
        with_leaves(path, all, m) is Err,
    ensures
        with_leaves(path, all, n) == with_leaves(path, all, m),
    decreases n,
{
    if m < n {
        lemma_leaf_fault_stays(path, all, m, (n - 1) as nat);
    }
}

/// Reads the text of a commitment log: one 32-byte hex leaf per line, in leaf
/// order. Faults are reported with the log's path and the line's number.
pub fn load_commitments(path: &str, text: &str) -> (loaded: Result<Vec<Fr>, String>)
    ensures
        match loaded {
            Ok(leaves) => parsed_log(path@, text@) == Ok::<Seq<nat>, Seq<char>>(values(leaves@)),
            Err(e) => parsed_log(path@, text@) == Err::<Seq<nat>, Seq<char>>(e@),
        },
{
    let all: Vec<Vec<char>> = lines(&chars_of(text));
    let ghost all_lines = texts(all@);
    let mut leaves: Vec<Fr> = Vec::new();
    proof {
        assert(values(leaves@) =~= Seq::<nat>::empty());
    }
    let mut i: usize = 0;
    while i < all.len()
        invariant
            i <= all@.len(),
            all_lines == texts(all@),
            all_lines == lines_of(text@),
            with_leaves(path@, all_lines, i as nat) == Ok::<Seq<nat>, Seq<char>>(
                values(leaves@),
            ),
        decreases all@.len() - i,
    {
        let line: Vec<char> = trim(&all[i]);
        let ghost before = values(leaves@);
        proof {
            assert(all_lines[i as int] == all@[i as int]@);
        }
        if !remark(&line) {
            match parse_fr(string_of(&line).as_str()) {
                Ok(leaf) => {
                    leaves.push(leaf);
                    proof {
                        assert(values(leaves@) =~= before.push(leaf.value()));
                    }
                },
                Err(e) => {
                    let mut out: Vec<char> = chars_of(path);
                    append_str(&mut out, ":");
                    append_text(&mut out, &to_decimal(i as u128 + 1));
                    append_str(&mut out, ": ");
                    append_str(&mut out, e.as_str());
                    proof {
                        lemma_leaf_fault_stays(
                            path@,
                            all_lines,
                            (i + 1) as nat,
                            all_lines.len(),
                        );
                    }
                    return Err(string_of(&out));
                },
            }
        }
        i = i + 1;
    }
    Ok(leaves)
}

/// A proof bundle: its fields by their keys.
#[derive(Debug)]
pub struct Bundle {
    fields: Store<String, String>,
}

impl View for Bundle {
    type V = Map<Seq<char>, Seq<char>>;

    closed spec fn view(&self) -> Map<Seq<char>, Seq<char>> {
        values_by_key(self.fields)
    }
}

impl Bundle {
    #[verifier::type_invariant]
    spec fn keys_distinct(self) -> bool {
        self.fields.wf()
    }
}

spec fn values_by_key(fields: Store<String, String>) -> Map<Seq<char>, Seq<char>> {
    fields.map().map_values(|value: String| value@)
}

/// What one trimmed line of a bundle adds, or what is wrong with it.
pub open spec fn with_field(path: Seq<char>, read: Map<Seq<char>, Seq<char>>, line: Seq<char>) -> Result<
    Map<Seq<char>, Seq<char>>,
    Seq<char>,
> {
    if is_remark(line) {
        Ok(read)
    } else {
        match split_once_of(line, '=') {
            None => Err(path + ": malformed line: "@ + line),
            Some((key, value)) => if read.dom().contains(key) {
                Err(path + ": duplicate key: "@ + key)
            } else {
                Ok(read.insert(key, value))
            },
        }
    }
}

/// The fields of the first `n` lines of a bundle, or what is wrong with the
/// first bad line.
pub open spec fn with_fields(path: Seq<char>, all: Seq<Seq<char>>, n: nat) -> Result<
    Map<Seq<char>, Seq<char>>,
    Seq<char>,
>
    decreases n,
{
    if n == 0 {
        Ok(Map::empty())
    } else {
        match with_fields(path, all, (n - 1) as nat) {
            Err(e) => Err(e),
            Ok(read) => with_field(path, read, trim_of(all[n - 1])),
        }
    }
}

/// The fields of a bundle, or what is wrong with it.
pub open spec fn parsed_bundle(path: Seq<char>, text: Seq<char>) -> Result<
    Map<Seq<char>, Seq<char>>,
    Seq<char>,
> {
    with_fields(path, lines_of(text), lines_of(text).len())
}

proof fn lemma_field_fault_stays(path: Seq<char>, all: Seq<Seq<char>>, m: nat, n: nat)
    requires
        m <= n,
        with_fields(path, all, m) is Err,
    ensures
        with_fields(path, all, n) == with_fields(path, all, m),
    decreases n,
{
    if m < n {
        lemma_field_fault_stays(path, all, m, (n - 1) as nat);
    }
}

/// Reads one trimmed line of a bundle.
fn read_field(path: &str, fields: &mut Store<String, String>, line: &Vec<char>) -> (done: Result<
    (),
    String,
>)
    requires
        old(fields).wf(),
    ensures
        final(fields).wf(),
        match done {
            Ok(_) => with_field(path@, values_by_key(*old(fields)), line@) == Ok::<
                Map<Seq<char>, Seq<char>>,
                Seq<char>,
            >(values_by_key(*final(fields))),
            Err(e) => with_field(path@, values_by_key(*old(fields)), line@) == Err::<
                Map<Seq<char>, Seq<char>>,
                Seq<char>,
            >(e@),
        },
{
    if remark(line) {
        return Ok(());
    }
    let (key, value): (Vec<char>, Vec<char>) = match split_once(line, '=') {
        Some(parts) => parts,
        None => {
            let mut out: Vec<char> = chars_of(path);
            append_str(&mut out, ": malformed line: ");
            append_text(&mut out, line);
            return Err(string_of(&out));
        },
    };
    let name: String = string_of(&key);
    if fields.has(&name) {
        let mut out: Vec<char> = chars_of(path);
        append_str(&mut out, ": duplicate key: ");
        append_text(&mut out, &key);
        return Err(string_of(&out));
    }
    fields.set(name, string_of(&value));
    proof {
        assert(values_by_key(*fields) =~= values_by_key(*old(fields)).insert(key@, value@));
    }
    Ok(())
}

/// Reads the text of a bundle. Faults are reported with the bundle's path.
pub fn read_bundle(path: &str, text: &str) -> (read: Result<Bundle, String>)
    ensures
        match read {
            Ok(bundle) => parsed_bundle(path@, text@) == Ok::<
                Map<Seq<char>, Seq<char>>,
                Seq<char>,
            >(bundle@),
            Err(e) => parsed_bundle(path@, text@) == Err::<Map<Seq<char>, Seq<char>>, Seq<char>>(
                e@,
            ),
        },
{
    let all: Vec<Vec<char>> = lines(&chars_of(text));
    let ghost all_lines = texts(all@);
    let mut fields: Store<String, String> = Store::new();
    proof {
        assert(values_by_key(fields) =~= Map::<Seq<char>, Seq<char>>::empty());
    }
    let mut i: usize = 0;
    while i < all.len()
        invariant
            i <= all@.len(),
            all_lines == texts(all@),
            all_lines == lines_of(text@),
            fields.wf(),
            with_fields(path@, all_lines, i as nat) == Ok::<
                Map<Seq<char>, Seq<char>>,
                Seq<char>,
            >(values_by_key(fields)),
        decreases all@.len() - i,
    {
        let line: Vec<char> = trim(&all[i]);
        proof {
            assert(all_lines[i as int] == all@[i as int]@);
        }
        match read_field(path, &mut fields, &line) {
            Ok(_) => {},
            Err(e) => {
                proof {
                    lemma_field_fault_stays(path@, all_lines, (i + 1) as nat, all_lines.len());
                }
                return Err(e);
            },
        }
        i = i + 1;
    }
    Ok(Bundle { fields })
}

/// A field of a bundle, or what is wrong.
pub open spec fn field_of(bundle: Map<Seq<char>, Seq<char>>, key: Seq<char>) -> Result<
    Seq<char>,
    Seq<char>,
> {
    if bundle.dom().contains(key) {
        Ok(bundle[key])
    } else {
        Err("bundle is missing "@ + key)
    }
}

/// The field of a bundle with a key.
pub fn bundle_field<'a>(bundle: &'a Bundle, key: &str) -> (value: Result<&'a str, String>)
    ensures
        match value {
            Ok(v) => field_of(bundle@, key@) == Ok::<Seq<char>, Seq<char>>(v@),
            Err(e) => field_of(bundle@, key@) == Err::<Seq<char>, Seq<char>>(e@),
        },
{
    proof {
        use_type_invariant(bundle);
    }
    match bundle.fields.get(&key.to_owned()) {
        Some(value) => Ok(value.as_str()),
        None => Err(labelled("bundle is missing ", &chars_of(key))),
    }
}

/// The lines of a bundle: a comment, and then the fields.
pub open spec fn bundle_lines(title: Seq<char>, fields: Seq<(Seq<char>, Seq<char>)>) -> Seq<
    Seq<char>,
> {
    seq![title] + Seq::new(fields.len(), |i: int| field_line(fields[i]))
}

/// Byte strings as fields, numbered from zero.
pub open spec fn numbered(name: Seq<char>, list: Seq<Seq<u8>>) -> Seq<(Seq<char>, Seq<char>)> {
    Seq::new(list.len(), |i: int| (name + decimal(i as nat), hex_encoded(list[i])))
}

/// The fields of a transfer bundle.
pub open spec fn transfer_fields(bundle: TransferBundle) -> Seq<(Seq<char>, Seq<char>)> {
    seq![
        ("circuit"@, "transfer"@),
        ("proof.a"@, hex_encoded(bundle.proof.a@)),
        ("proof.b"@, hex_encoded(bundle.proof.b@)),
        ("proof.c"@, hex_encoded(bundle.proof.c@)),
        ("root"@, hex_encoded(bundle.root@)),
    ] + numbered("nullifier."@, byte_views(bundle.nullifiers@)) + numbered(
        "new_commitment."@,
        byte_views(bundle.new_commitments@),
    )
}

/// The fields of a withdraw bundle.
pub open spec fn withdraw_fields(bundle: WithdrawBundle) -> Seq<(Seq<char>, Seq<char>)> {
    seq![
        ("circuit"@, "withdraw"@),
        ("proof.a"@, hex_encoded(bundle.proof.a@)),
        ("proof.b"@, hex_encoded(bundle.proof.b@)),
        ("proof.c"@, hex_encoded(bundle.proof.c@)),
        ("root"@, hex_encoded(bundle.root@)),
        ("nullifier"@, hex_encoded(bundle.nullifier@)),
        ("recipient_binding"@, hex_encoded(bundle.recipient_binding@)),
        ("amount"@, decimal(bundle.amount as nat)),
    ]
}

/// The text of a transfer bundle.
pub open spec fn transfer_text(bundle: TransferBundle) -> Seq<char> {
    written(bundle_lines("# attesta transfer proof bundle"@, transfer_fields(bundle)))
}

/// The text of a withdraw bundle.
pub open spec fn withdraw_text(bundle: WithdrawBundle) -> Seq<char> {
    written(bundle_lines("# attesta withdraw proof bundle"@, withdraw_fields(bundle)))
}

/// Starts the text of a bundle.
fn begin(title: &str) -> (out: Vec<char>)
    ensures
        out@ == written(bundle_lines(title@, Seq::empty())),
{
    let mut out: Vec<char> = chars_of(title);
    out.push('\n');
    proof {
        let none = Seq::<(Seq<char>, Seq<char>)>::empty();
        assert(bundle_lines(title@, none) =~= Seq::empty().push(title@));
        lemma_written_push(Seq::empty(), title@);
        assert(out@ =~= written(bundle_lines(title@, none)));
    }
    out
}

/// Adds a field to the text of a bundle.
fn add_field(
    out: &mut Vec<char>,
    key: &Vec<char>,
    value: &str,
    Ghost(title): Ghost<Seq<char>>,
    Ghost(fields): Ghost<Seq<(Seq<char>, Seq<char>)>>,
)
    requires
        old(out)@ == written(bundle_lines(title, fields)),
    ensures
        final(out)@ == written(bundle_lines(title, fields.push((key@, value@)))),
{
    append_text(out, key);
    append_str(out, "=");
    append_str(out, value);
    out.push('\n');
    proof {
        let lines = bundle_lines(title, fields);
        let line = field_line((key@, value@));
        lemma_written_push(lines, line);
        assert(bundle_lines(title, fields.push((key@, value@))) =~= lines.push(line));
        assert(out@ =~= written(lines) + line.push('\n'));
    }
}

/// Adds numbered fields to the text of a bundle.
fn add_numbered(
    out: &mut Vec<char>,
    name: &str,
    list: &Vec<[u8; 32]>,
    Ghost(title): Ghost<Seq<char>>,
    Ghost(fields): Ghost<Seq<(Seq<char>, Seq<char>)>>,
)
    requires
        old(out)@ == written(bundle_lines(title, fields)),
    ensures
        final(out)@ == written(
            bundle_lines(title, fields + numbered(name@, byte_views(list@))),
        ),
{
    let ghost all = numbered(name@, byte_views(list@));
    let mut i: usize = 0;
    proof {
        assert(fields + all.take(0) =~= fields);
    }
    while i < list.len()
        invariant
            i <= list@.len(),
            all == numbered(name@, byte_views(list@)),
            out@ == written(bundle_lines(title, fields + all.take(i as int))),
        decreases list@.len() - i,
    {
        let mut key: Vec<char> = chars_of(name);
        append_text(&mut key, &to_decimal(i as u128));
        let value: String = encode(&list[i]);
        add_field(out, &key, value.as_str(), Ghost(title), Ghost(fields + all.take(i as int)));
        proof {
            assert((fields + all.take(i as int)).push((key@, value@)) =~= fields + all.take(i + 1));
        }
        i = i + 1;
    }
    proof {
        assert(all.take(all.len() as int) =~= all);
    }
}

/// Writes a transfer bundle as text.
pub fn render_transfer(bundle: &TransferBundle) -> (text: String)
    ensures
        text@ == transfer_text(*bundle),
{
    let ghost title = "# attesta transfer proof bundle"@;
    let ghost none = Seq::<(Seq<char>, Seq<char>)>::empty();
    let ghost f1 = none.push(("circuit"@, "transfer"@));
    let ghost f2 = f1.push(("proof.a"@, hex_encoded(bundle.proof.a@)));
    let ghost f3 = f2.push(("proof.b"@, hex_encoded(bundle.proof.b@)));
    let ghost f4 = f3.push(("proof.c"@, hex_encoded(bundle.proof.c@)));
    let ghost f5 = f4.push(("root"@, hex_encoded(bundle.root@)));
    let ghost f6 = f5 + numbered("nullifier."@, byte_views(bundle.nullifiers@));
    let mut out: Vec<char> = begin("# attesta transfer proof bundle");
    add_field(&mut out, &chars_of("circuit"), "transfer", Ghost(title), Ghost(none));
    add_field(
        &mut out,
        &chars_of("proof.a"),
        encode(&bundle.proof.a).as_str(),
        Ghost(title),
        Ghost(f1),
    );
    add_field(
        &mut out,
        &chars_of("proof.b"),
        encode(&bundle.proof.b).as_str(),
        Ghost(title),
        Ghost(f2),
    );
    add_field(
        &mut out,
        &chars_of("proof.c"),
        encode(&bundle.proof.c).as_str(),
        Ghost(title),
        Ghost(f3),
    );
    add_field(&mut out, &chars_of("root"), encode(&bundle.root).as_str(), Ghost(title), Ghost(f4));
    add_numbered(&mut out, "nullifier.", &bundle.nullifiers, Ghost(title), Ghost(f5));
    add_numbered(&mut out, "new_commitment.", &bundle.new_commitments, Ghost(title), Ghost(f6));
    proof {
        assert(transfer_fields(*bundle) =~= f6 + numbered(
            "new_commitment."@,
            byte_views(bundle.new_commitments@),
        ));
    }
    string_of(&out)
}

/// Writes a withdraw bundle as text.
pub fn render_withdraw(bundle: &WithdrawBundle) -> (text: String)
    ensures
        text@ == withdraw_text(*bundle),
{
    let ghost title = "# attesta withdraw proof bundle"@;
    let ghost none = Seq::<(Seq<char>, Seq<char>)>::empty();
    let ghost f1 = none.push(("circuit"@, "withdraw"@));
    let ghost f2 = f1.push(("proof.a"@, hex_encoded(bundle.proof.a@)));
    let ghost f3 = f2.push(("proof.b"@, hex_encoded(bundle.proof.b@)));
    let ghost f4 = f3.push(("proof.c"@, hex_encoded(bundle.proof.c@)));
    let ghost f5 = f4.push(("root"@, hex_encoded(bundle.root@)));
    let ghost f6 = f5.push(("nullifier"@, hex_encoded(bundle.nullifier@)));
    let ghost f7 = f6.push(("recipient_binding"@, hex_encoded(bundle.recipient_binding@)));
    let mut out: Vec<char> = begin("# attesta withdraw proof bundle");
    add_field(&mut out, &chars_of("circuit"), "withdraw", Ghost(title), Ghost(none));
    add_field(
        &mut out,
        &chars_of("proof.a"),
        encode(&bundle.proof.a).as_str(),
        Ghost(title),
        Ghost(f1),
    );
    add_field(
        &mut out,
        &chars_of("proof.b"),
        encode(&bundle.proof.b).as_str(),
        Ghost(title),
        Ghost(f2),
    );
    add_field(
        &mut out,
        &chars_of("proof.c"),
        encode(&bundle.proof.c).as_str(),
        Ghost(title),
        Ghost(f3),
    );
    add_field(&mut out, &chars_of("root"), encode(&bundle.root).as_str(), Ghost(title), Ghost(f4));
    add_field(
        &mut out,
        &chars_of("nullifier"),
        encode(&bundle.nullifier).as_str(),
        Ghost(title),
        Ghost(f5),
    );
    add_field(
        &mut out,
        &chars_of("recipient_binding"),
        encode(&bundle.recipient_binding).as_str(),
        Ghost(title),
        Ghost(f6),
    );
    add_field(
        &mut out,
        &chars_of("amount"),
        string_of(&to_decimal(bundle.amount as u128)).as_str(),
        Ghost(title),
        Ghost(f7),
    );
    proof {
        assert(withdraw_fields(*bundle) =~= f7.push(("amount"@, decimal(bundle.amount as nat))));
    }
    string_of(&out)
}

/// A line of a bundle that is neither a comment nor part of the proof.
pub open spec fn is_public(line: Seq<char>) -> bool {
    &&& !(line.len() > 0 && line[0] == '#')
    &&& !"proof."@.is_prefix_of(line)
}

/// The public lines among some lines.
pub open spec fn public_lines(all: Seq<Seq<char>>) -> Seq<Seq<char>>
    decreases all.len(),
{
    if all.len() == 0 {
        Seq::empty()
    } else {
        let before = public_lines(all.drop_last());
        if is_public(all.last()) {
            before.push(all.last())
        } else {
            before
        }
    }
}

/// The lines with a bundle's public fields (everything but the proof), so that
/// the caller can assemble the contract call without opening the file.
pub fn public_summary(bundle_text: &str) -> (summary: Vec<String>)
    ensures
        strings(summary@) == public_lines(lines_of(bundle_text@)),
{
    let all: Vec<Vec<char>> = lines(&chars_of(bundle_text));
    let ghost all_lines = texts(all@);
    let prefix: Vec<char> = chars_of("proof.");
    let mut summary: Vec<String> = Vec::new();
    proof {
        assert(strings(summary@) =~= public_lines(all_lines.take(0)));
    }
    let mut i: usize = 0;
    while i < all.len()
        invariant
            i <= all@.len(),
            all_lines == texts(all@),
            prefix@ == "proof."@,
            strings(summary@) == public_lines(all_lines.take(i as int)),
        decreases all@.len() - i,
    {
        let ghost before = strings(summary@);
        let line: &Vec<char> = &all[i];
        proof {
            assert(all_lines.take(i + 1).drop_last() =~= all_lines.take(i as int));
            assert(all_lines.take(i + 1).last() == line@);
        }
        if !(line.len() > 0 && line[0] == '#') && !has_prefix(line, &prefix) {
            summary.push(string_of(line));
            proof {
                assert(strings(summary@) =~= before.push(line@));
            }
        }
        i = i + 1;
    }
    proof {
        assert(all_lines.take(all_lines.len() as int) =~= all_lines);
    }
    summary
}

/// Fields by their keys.
pub open spec fn by_key(fields: Seq<(Seq<char>, Seq<char>)>) -> Map<Seq<char>, Seq<char>>
    decreases fields.len(),
{
    if fields.len() == 0 {
        Map::empty()
    } else {
        by_key(fields.drop_last()).insert(fields.last().0, fields.last().1)
    }
}

/// No two fields have the same key.
pub open spec fn keys_differ(fields: Seq<(Seq<char>, Seq<char>)>) -> bool {
    forall|i: int, j: int|
        0 <= i < j < fields.len() ==> (#[trigger] fields[i]).0 != (#[trigger] fields[j]).0
}

/// A field whose line is read back as it.
pub open spec fn is_plain(field: (Seq<char>, Seq<char>)) -> bool {
    &&& field.0.len() > 0
    &&& field.0[0] != '#'
    &&& forall|k: int| 0 <= k < field.0.len() ==> field.0[k] != '='
    &&& is_tight(field_line(field))
}

/// Every field is found by its key, and nothing else is.
pub proof fn lemma_by_key(fields: Seq<(Seq<char>, Seq<char>)>)
    requires
        keys_differ(fields),
    ensures
        forall|i: int|
            0 <= i < fields.len() ==> by_key(fields).dom().contains((#[trigger] fields[i]).0)
                && by_key(fields)[fields[i].0] == fields[i].1,
        forall|key: Seq<char>| #[trigger]
            by_key(fields).dom().contains(key) ==> exists|i: int|
                0 <= i < fields.len() && (#[trigger] fields[i]).0 == key,
    decreases fields.len(),
{
    if fields.len() > 0 {
        let before = fields.drop_last();
        assert forall|i: int, j: int| 0 <= i < j < before.len() implies (#[trigger] before[i]).0 != (
        #[trigger] before[j]).0 by {
            assert(before[i] == fields[i] && before[j] == fields[j]);
        }
        lemma_by_key(before);
        assert forall|i: int| 0 <= i < fields.len() implies by_key(fields).dom().contains(
            (#[trigger] fields[i]).0,
        ) && by_key(fields)[fields[i].0] == fields[i].1 by {
            if i < before.len() {
                assert(before[i] == fields[i]);
                assert(fields[i].0 != fields[fields.len() - 1].0);
            }
        }
        assert forall|key: Seq<char>| #[trigger]
            by_key(fields).dom().contains(key) implies exists|i: int|
            0 <= i < fields.len() && (#[trigger] fields[i]).0 == key by {
            if key == fields.last().0 {
                assert(fields[fields.len() - 1].0 == key);
            } else {
                assert(by_key(before).dom().contains(key));
                let i = choose|i: int| 0 <= i < before.len() && (#[trigger] before[i]).0 == key;
                assert(fields[i].0 == key);
            }
        }
    }
}

/// The first lines of a bundle give its first fields.
proof fn lemma_lines_read_back(
    path: Seq<char>,
    title: Seq<char>,
    fields: Seq<(Seq<char>, Seq<char>)>,
    n: nat,
)
    requires
        n <= fields.len(),
        is_tight(title),
        title[0] == '#',
        keys_differ(fields),
        forall|i: int| 0 <= i < fields.len() ==> is_plain(#[trigger] fields[i]),
    ensures
        with_fields(path, bundle_lines(title, fields), n + 1) == Ok::<
            Map<Seq<char>, Seq<char>>,
            Seq<char>,
        >(by_key(fields.take(n as int))),
    decreases n,
{
    let all = bundle_lines(title, fields);
    if n == 0 {
        reveal_with_fuel(with_fields, 2);
        lemma_trim_tight(title);
        assert(all[0] == title);
        assert(by_key(fields.take(0)) =~= Map::<Seq<char>, Seq<char>>::empty());
    } else {
        lemma_lines_read_back(path, title, fields, (n - 1) as nat);
        let field = fields[n - 1];
        assert(is_plain(field));
        lemma_field_line(field);
        lemma_trim_tight(field_line(field));
        assert(all[n as int] == field_line(field));
        let before = fields.take(n - 1);
        assert forall|i: int, j: int| 0 <= i < j < before.len() implies (#[trigger] before[i]).0 != (
        #[trigger] before[j]).0 by {
            assert(before[i] == fields[i] && before[j] == fields[j]);
        }
        lemma_by_key(before);
        if by_key(before).dom().contains(field.0) {
            let i = choose|i: int| 0 <= i < before.len() && (#[trigger] before[i]).0 == field.0;
            assert(before[i] == fields[i]);
            assert(fields[i].0 != fields[n - 1].0);
        }
        assert(fields.take(n as int).drop_last() =~= before);
        assert(fields.take(n as int).last() == field);
    }
}

/// A bundle that is written is read back.
proof fn lemma_bundle_read_back(
    path: Seq<char>,
    title: Seq<char>,
    fields: Seq<(Seq<char>, Seq<char>)>,
)
    requires
        is_tight(title),
        title[0] == '#',
        keys_differ(fields),
        forall|i: int| 0 <= i < fields.len() ==> is_plain(#[trigger] fields[i]),
    ensures
        parsed_bundle(path, written(bundle_lines(title, fields))) == Ok::<
            Map<Seq<char>, Seq<char>>,
            Seq<char>,
        >(by_key(fields)),
        lines_of(written(bundle_lines(title, fields))) == bundle_lines(title, fields),
{
    let all = bundle_lines(title, fields);
    assert forall|i: int| 0 <= i < all.len() implies is_tight(#[trigger] all[i]) by {
        if i > 0 {
            assert(is_plain(fields[i - 1]));
        }
    }
    lemma_lines_written(all);
    lemma_lines_read_back(path, title, fields, fields.len());
    assert(fields.take(fields.len() as int) =~= fields);
}

/// A field whose value is hexadecimal or decimal digits, or a word, is plain
/// if its key is.
pub proof fn lemma_plain(key: Seq<char>, value: Seq<char>)
    requires
        key.len() > 0,
        key[0] != '#',
        forall|k: int| 0 <= k < key.len() ==> key[k] != '=' && key[k] != '\n',
        !is_space(key[0]),
        forall|k: int| 0 <= k < value.len() ==> !is_space(#[trigger] value[k]),
    ensures
        is_plain((key, value)),
{
    reveal_strlit("=");
    let line = field_line((key, value));
    assert(line =~= key.push('=') + value);
    assert(line[0] == key[0]);
    if value.len() > 0 {
        assert(line.last() == value[value.len() - 1]);
    } else {
        assert(line.last() == '=');
    }
    assert forall|k: int| 0 <= k < line.len() implies line[k] != '\n' by {
        if k > key.len() {
            assert(line[k] == value[k - key.len() - 1]);
        }
    }
}

/// Hexadecimal digits are no white space.
pub proof fn lemma_hex_plain(bytes: Seq<u8>)
    ensures
        forall|k: int| 0 <= k < hex_encoded(bytes).len() ==> !is_space(#[trigger] hex_encoded(bytes)[k]),
{
    assert forall|k: int| 0 <= k < hex_encoded(bytes).len() implies !is_space(
        #[trigger] hex_encoded(bytes)[k],
    ) by {
        let b = bytes[k / 2];
        assert(b / 16 < 16 && b % 16 < 16);
    }
}

/// **Transfer bundles round-trip.** The text that a transfer bundle is written
/// as is read back as its fields.
pub proof fn lemma_transfer_bundle_roundtrip(path: Seq<char>, bundle: TransferBundle)
    ensures
        keys_differ(transfer_fields(bundle)),
        lines_of(transfer_text(bundle)) == bundle_lines(
            "# attesta transfer proof bundle"@,
            transfer_fields(bundle),
        ),
        parsed_bundle(path, transfer_text(bundle)) == Ok::<Map<Seq<char>, Seq<char>>, Seq<char>>(
            by_key(transfer_fields(bundle)),
        ),
{
    let title = "# attesta transfer proof bundle"@;
    let fields = transfer_fields(bundle);
    let n = bundle.nullifiers@.len() as int;
    reveal_strlit("# attesta transfer proof bundle");
    reveal_strlit("circuit");
    reveal_strlit("transfer");
    reveal_strlit("proof.a");
    reveal_strlit("proof.b");
    reveal_strlit("proof.c");
    reveal_strlit("root");
    reveal_strlit("nullifier.");
    reveal_strlit("new_commitment.");
    assert forall|i: int| 0 <= i < fields.len() implies is_plain(#[trigger] fields[i]) by {
        if i == 0 {
            lemma_plain("circuit"@, "transfer"@);
        } else if i == 1 {
            lemma_hex_plain(bundle.proof.a@);
            lemma_plain("proof.a"@, hex_encoded(bundle.proof.a@));
        } else if i == 2 {
            lemma_hex_plain(bundle.proof.b@);
            lemma_plain("proof.b"@, hex_encoded(bundle.proof.b@));
        } else if i == 3 {
            lemma_hex_plain(bundle.proof.c@);
            lemma_plain("proof.c"@, hex_encoded(bundle.proof.c@));
        } else if i == 4 {
            lemma_hex_plain(bundle.root@);
            lemma_plain("root"@, hex_encoded(bundle.root@));
        } else if i < 5 + n {
            lemma_numbered_plain("nullifier."@, byte_views(bundle.nullifiers@), i - 5);
        } else {
            lemma_numbered_plain(
                "new_commitment."@,
                byte_views(bundle.new_commitments@),
                i - 5 - n,
            );
        }
    }
    assert forall|i: int, j: int| 0 <= i < j < fields.len() implies (#[trigger] fields[i]).0 != (
    #[trigger] fields[j]).0 by {
        let a = fields[i].0;
        let b = fields[j].0;
        if j < 5 {
            assert(a.len() != b.len() || a[0] != b[0] || a[6] != b[6]);
        } else if i < 5 {
            assert(b[0] == 'n');
            assert(a[0] != 'n');
        } else if i < 5 + n <= j {
            assert(a[1] == 'u');
            assert(b[1] == 'e');
        } else if j < 5 + n {
            lemma_numbers_differ("nullifier."@, (i - 5) as nat, (j - 5) as nat);
        } else {
            lemma_numbers_differ("new_commitment."@, (i - 5 - n) as nat, (j - 5 - n) as nat);
        }
    }
    lemma_bundle_read_back(path, title, fields);
}

/// Numbered fields are plain.
pub proof fn lemma_numbered_plain(name: Seq<char>, list: Seq<Seq<u8>>, i: int)
    requires
        0 <= i < list.len(),
        name.len() > 0,
        name[0] != '#',
        !is_space(name[0]),
        forall|k: int| 0 <= k < name.len() ==> name[k] != '=' && name[k] != '\n',
    ensures
        is_plain(numbered(name, list)[i]),
{
    lemma_decimal_roundtrip(i as nat, i as nat);
    lemma_hex_plain(list[i]);
    let digits = decimal(i as nat);
    let key = name + digits;
    assert forall|k: int| 0 <= k < key.len() implies key[k] != '=' && key[k] != '\n' by {
        if k >= name.len() {
            assert(key[k] == digits[k - name.len()]);
        }
    }
    lemma_plain(key, hex_encoded(list[i]));
}

/// **Withdraw bundles round-trip.** The text that a withdraw bundle is written
/// as is read back as its fields.
pub proof fn lemma_withdraw_bundle_roundtrip(path: Seq<char>, bundle: WithdrawBundle)
    ensures
        keys_differ(withdraw_fields(bundle)),
        lines_of(withdraw_text(bundle)) == bundle_lines(
            "# attesta withdraw proof bundle"@,
            withdraw_fields(bundle),
        ),
        parsed_bundle(path, withdraw_text(bundle)) == Ok::<Map<Seq<char>, Seq<char>>, Seq<char>>(
            by_key(withdraw_fields(bundle)),
        ),
{
    let title = "# attesta withdraw proof bundle"@;
    let fields = withdraw_fields(bundle);
    reveal_strlit("# attesta withdraw proof bundle");
    reveal_strlit("circuit");
    reveal_strlit("withdraw");
    reveal_strlit("proof.a");
    reveal_strlit("proof.b");
    reveal_strlit("proof.c");
    reveal_strlit("root");
    reveal_strlit("nullifier");
    reveal_strlit("recipient_binding");
    reveal_strlit("amount");
    assert forall|i: int| 0 <= i < fields.len() implies is_plain(#[trigger] fields[i]) by {
        if i == 0 {
            lemma_plain("circuit"@, "withdraw"@);
        } else if i == 1 {
            lemma_hex_plain(bundle.proof.a@);
            lemma_plain("proof.a"@, hex_encoded(bundle.proof.a@));
        } else if i == 2 {
            lemma_hex_plain(bundle.proof.b@);
            lemma_plain("proof.b"@, hex_encoded(bundle.proof.b@));
        } else if i == 3 {
            lemma_hex_plain(bundle.proof.c@);
            lemma_plain("proof.c"@, hex_encoded(bundle.proof.c@));
        } else if i == 4 {
            lemma_hex_plain(bundle.root@);
            lemma_plain("root"@, hex_encoded(bundle.root@));
        } else if i == 5 {
            lemma_hex_plain(bundle.nullifier@);
            lemma_plain("nullifier"@, hex_encoded(bundle.nullifier@));
        } else if i == 6 {
            lemma_hex_plain(bundle.recipient_binding@);
            lemma_plain("recipient_binding"@, hex_encoded(bundle.recipient_binding@));
        } else {
            let digits = decimal(bundle.amount as nat);
            lemma_decimal_roundtrip(bundle.amount as nat, bundle.amount as nat);
            assert forall|k: int| 0 <= k < digits.len() implies !is_space(
                #[trigger] digits[k],
            ) by {
                assert('0' <= digits[k] <= '9');
            }
            lemma_plain("amount"@, digits);
        }
    }
    assert forall|i: int, j: int| 0 <= i < j < fields.len() implies (#[trigger] fields[i]).0 != (
    #[trigger] fields[j]).0 by {
        let a = fields[i].0;
        let b = fields[j].0;
        assert(a.len() != b.len() || a[0] != b[0] || a[6] != b[6]);
    }
    lemma_bundle_read_back(path, title, fields);
}

} // verus!
