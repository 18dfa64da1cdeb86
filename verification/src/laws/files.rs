//! Laws of the files: commitment logs, proof bundles and verifying keys.

use crate::cli::args::parsed_fr;
use crate::cli::bundle::{
    bundle_field, bundle_lines, by_key, lemma_by_key, lemma_transfer_bundle_roundtrip,
    lemma_withdraw_bundle_roundtrip, load_commitments, public_lines, public_summary, read_bundle,
    render_transfer, render_withdraw, transfer_fields, with_field, with_fields, with_leaves,
    withdraw_fields, Bundle,
};
use crate::field::Fr;
use crate::hex_codec::hex_encoded;
use crate::laws::texts::{lacks, lemma_found};
use crate::prover::{ProveError, TransferBundle, WithdrawBundle};
use crate::text::{decimal, field_line, find, lines_of, split_once_of, strings, trim_of};
use vstd::prelude::*;

verus! {

/// A line of a file, without the white space around it.
pub open spec fn line_at(all: Seq<Seq<char>>, k: int) -> Seq<char> {
    trim_of(all[k])
}

/// A trimmed line that is neither blank nor a comment.
pub open spec fn says(line: Seq<char>) -> bool {
    line.len() > 0 && line[0] != '#'
}

/// How many of the first lines say something.
pub open spec fn said_before(all: Seq<Seq<char>>, n: nat) -> nat
    decreases n,
{
    if n == 0 {
        0
    } else {
        said_before(all, (n - 1) as nat) + if says(line_at(all, n - 1)) {
            1nat
        } else {
            0
        }
    }
}

proof fn lemma_said_grows(all: Seq<Seq<char>>, m: nat, n: nat)
    requires
        m <= n,
    ensures
        said_before(all, m) <= said_before(all, n),
    decreases n,
{
    if m < n {
        lemma_said_grows(all, m, (n - 1) as nat);
    }
}

proof fn lemma_leaves(path: Seq<char>, all: Seq<Seq<char>>, n: nat)
    requires
        n <= all.len(),
    ensures
        with_leaves(path, all, n) is Ok <==> forall|k: int|
            0 <= k < n && says(#[trigger] line_at(all, k)) ==> parsed_fr(line_at(all, k)) is Ok,
        with_leaves(path, all, n) matches Ok(leaves) ==> leaves.len() == said_before(all, n)
            && forall|k: int|
            0 <= k < n && says(#[trigger] line_at(all, k)) ==> {
                &&& said_before(all, k as nat) < leaves.len()
                &&& parsed_fr(line_at(all, k)) == Ok::<nat, Seq<char>>(
                    leaves[said_before(all, k as nat) as int],
                )
            },
        with_leaves(path, all, n) matches Err(e) ==> exists|k: int|
            {
                &&& 0 <= k < n
                &&& says(#[trigger] line_at(all, k))
                &&& parsed_fr(line_at(all, k)) is Err
                &&& e == path + ":"@ + decimal((k + 1) as nat) + ": "@ + parsed_fr(
                    line_at(all, k),
                )->Err_0
                &&& forall|i: int|
                    0 <= i < k && says(#[trigger] line_at(all, i)) ==> parsed_fr(
                        line_at(all, i),
                    ) is Ok
            },
    decreases n,
{
    if n > 0 {
        let m = (n - 1) as nat;
        lemma_leaves(path, all, m);
        let line = line_at(all, m as int);
        if let Ok(leaves) = with_leaves(path, all, n) {
            let before = with_leaves(path, all, m)->Ok_0;
            assert forall|k: int| 0 <= k < n && says(#[trigger] line_at(all, k)) implies
                said_before(all, k as nat) < leaves.len() && parsed_fr(line_at(all, k)) == Ok::<
                nat,
                Seq<char>,
            >(leaves[said_before(all, k as nat) as int]) by {
                if k < m {
                    assert(said_before(all, k as nat) < before.len());
                    assert(leaves[said_before(all, k as nat) as int] == before[said_before(
                        all,
                        k as nat,
                    ) as int]);
                }
            }
        }
    }
}

/// **Logs.** A log is read if and only if each of its lines that is neither
/// blank nor a comment is a field element. It then has exactly those, in their
/// order. The first line that is wrong is told, by its number.
pub proof fn lemma_log(path: &str, text: &str, loaded: Result<Vec<Fr>, String>)
    requires
        call_ensures(load_commitments, (path, text), loaded),
    ensures
        ({
            let all = lines_of(text@);
            &&& loaded is Ok <==> forall|k: int|
                0 <= k < all.len() && says(#[trigger] line_at(all, k)) ==> parsed_fr(
                    line_at(all, k),
                ) is Ok
            &&& loaded matches Ok(leaves) ==> leaves@.len() == said_before(all, all.len())
                && forall|k: int|
                0 <= k < all.len() && says(#[trigger] line_at(all, k)) ==> {
                    &&& said_before(all, k as nat) < leaves@.len()
                    &&& parsed_fr(line_at(all, k)) == Ok::<nat, Seq<char>>(
                        leaves@[said_before(all, k as nat) as int].value(),
                    )
                }
            &&& loaded matches Err(e) ==> exists|k: int|
                {
                    &&& 0 <= k < all.len()
                    &&& says(#[trigger] line_at(all, k))
                    &&& parsed_fr(line_at(all, k)) is Err
                    &&& e@ == path@ + ":"@ + decimal((k + 1) as nat) + ": "@ + parsed_fr(
                        line_at(all, k),
                    )->Err_0
                    &&& forall|i: int|
                        0 <= i < k && says(#[trigger] line_at(all, i)) ==> parsed_fr(
                            line_at(all, i),
                        ) is Ok
                }
        }),
{
    let all = lines_of(text@);
    lemma_leaves(path@, all, all.len());
    if let Ok(leaves) = loaded {
        let got = crate::circuit::values(leaves@);
        assert(with_leaves(path@, all, all.len()) == Ok::<Seq<nat>, Seq<char>>(got));
        assert forall|k: int| 0 <= k < all.len() && says(#[trigger] line_at(all, k)) implies
            said_before(all, k as nat) < leaves@.len() && parsed_fr(line_at(all, k)) == Ok::<
            nat,
            Seq<char>,
        >(leaves@[said_before(all, k as nat) as int].value()) by {
            assert(got[said_before(all, k as nat) as int] == leaves@[said_before(
                all,
                k as nat,
            ) as int].value());
        }
    }
}

/// What stands before the first equals sign of a line.
pub open spec fn key_in(line: Seq<char>) -> Seq<char> {
    line.take(find(line, '=') as int)
}

/// What stands behind the first equals sign of a line.
pub open spec fn value_in(line: Seq<char>) -> Seq<char> {
    line.skip(find(line, '=') as int + 1)
}

/// **Fields.** A line with an equals sign is its key, which has none, the sign
/// and its value.
pub proof fn lemma_fields(line: Seq<char>)
    requires
        !lacks(line, '='),
    ensures
        lacks(key_in(line), '='),
        line == key_in(line).push('=') + value_in(line),
{
    lemma_found(line, '=');
    let at = find(line, '=') as int;
    if at == line.len() {
        assert(line.take(at) =~= line);
    }
    assert(line =~= key_in(line).push('=') + value_in(line));
}

pub(crate) proof fn lemma_splits(line: Seq<char>)
    ensures
        split_once_of(line, '=') is None <==> lacks(line, '='),
        split_once_of(line, '=') matches Some((key, value)) ==> key == key_in(line) && value
            == value_in(line),
{
    lemma_found(line, '=');
    let at = find(line, '=') as int;
    if at == line.len() {
        assert(line.take(at) =~= line);
    }
}

/// Of the first lines, each that says something gives a field, and no two give
/// the same key.
pub open spec fn well_written(all: Seq<Seq<char>>, n: int) -> bool {
    &&& forall|k: int|
        0 <= k < n && says(#[trigger] line_at(all, k)) ==> !lacks(line_at(all, k), '=')
    &&& forall|i: int, k: int|
        0 <= i < k < n && says(#[trigger] line_at(all, i)) && says(#[trigger] line_at(all, k))
            ==> key_in(line_at(all, i)) != key_in(line_at(all, k))
}

/// The fields are exactly those that the first lines give.
pub open spec fn has_fields(read: Map<Seq<char>, Seq<char>>, all: Seq<Seq<char>>, n: int) -> bool {
    &&& forall|k: int|
        0 <= k < n && says(#[trigger] line_at(all, k)) ==> {
            &&& read.dom().contains(key_in(line_at(all, k)))
            &&& read[key_in(line_at(all, k))] == value_in(line_at(all, k))
        }
    &&& forall|key: Seq<char>| #[trigger]
        read.dom().contains(key) ==> exists|k: int|
            0 <= k < n && says(#[trigger] line_at(all, k)) && key_in(line_at(all, k)) == key
}

proof fn lemma_fields_read(path: Seq<char>, all: Seq<Seq<char>>, n: nat)
    requires
        n <= all.len(),
    ensures
        with_fields(path, all, n) is Ok <==> well_written(all, n as int),
        with_fields(path, all, n) matches Ok(read) ==> has_fields(read, all, n as int),
        with_fields(path, all, n) matches Err(e) ==> exists|k: int|
            {
                &&& 0 <= k < n
                &&& well_written(all, k)
                &&& says(#[trigger] line_at(all, k))
                &&& if lacks(line_at(all, k), '=') {
                    e == path + ": malformed line: "@ + line_at(all, k)
                } else {
                    e == path + ": duplicate key: "@ + key_in(line_at(all, k)) && !well_written(
                        all,
                        k + 1,
                    )
                }
            },
    decreases n,
{
    if n > 0 {
        let m = (n - 1) as nat;
        lemma_fields_read(path, all, m);
        let line = line_at(all, m as int);
        lemma_splits(line);
        if with_fields(path, all, m) is Err {
            assert(!well_written(all, n as int));
        } else {
            let read = with_fields(path, all, m)->Ok_0;
            let now = with_field(path, read, line);
            assert(with_fields(path, all, n) == now);
            if says(line) && !lacks(line, '=') {
                let key = key_in(line);
                if read.dom().contains(key) {
                    let k = choose|k: int|
                        0 <= k < m && says(#[trigger] line_at(all, k)) && key_in(line_at(all, k))
                            == key;
                    assert(says(line_at(all, k)) && says(line_at(all, m as int)));
                    assert(!well_written(all, n as int));
                } else {
                    let more = read.insert(key, value_in(line));
                    assert forall|k: int| 0 <= k < n && says(#[trigger] line_at(all, k)) implies {
                        &&& more.dom().contains(key_in(line_at(all, k)))
                        &&& more[key_in(line_at(all, k))] == value_in(line_at(all, k))
                    } by {
                        if k < m {
                            assert(read.dom().contains(key_in(line_at(all, k))));
                        }
                    }
                    assert forall|name: Seq<char>| #[trigger]
                        more.dom().contains(name) implies exists|k: int|
                        0 <= k < n && says(#[trigger] line_at(all, k)) && key_in(line_at(all, k))
                            == name by {
                        if name == key {
                            assert(says(line_at(all, m as int)));
                        } else {
                            assert(read.dom().contains(name));
                        }
                    }
                    assert(well_written(all, n as int));
                }
            } else if says(line) {
                assert(!well_written(all, n as int));
            } else {
                assert(well_written(all, n as int));
                assert(has_fields(read, all, n as int));
            }
        }
    }
}

/// **Bundles.** A bundle is read if and only if each of its lines that is
/// neither blank nor a comment has an equals sign, and no key stands twice. It
/// then has exactly the fields that the lines give. The first line that is
/// wrong is told.
pub proof fn lemma_bundle(path: &str, text: &str, read: Result<Bundle, String>)
    requires
        call_ensures(read_bundle, (path, text), read),
    ensures
        ({
            let all = lines_of(text@);
            &&& read is Ok <==> well_written(all, all.len() as int)
            &&& read matches Ok(bundle) ==> has_fields(bundle@, all, all.len() as int)
            &&& read matches Err(e) ==> exists|k: int|
                {
                    &&& 0 <= k < all.len()
                    &&& well_written(all, k)
                    &&& says(#[trigger] line_at(all, k))
                    &&& if lacks(line_at(all, k), '=') {
                        e@ == path@ + ": malformed line: "@ + line_at(all, k)
                    } else {
                        e@ == path@ + ": duplicate key: "@ + key_in(line_at(all, k))
                            && !well_written(all, k + 1)
                    }
                }
        }),
{
    lemma_fields_read(path@, lines_of(text@), lines_of(text@).len());
}

/// **The field of a bundle** is the one with the key; a missing one is told.
pub proof fn lemma_bundle_field(bundle: &Bundle, key: &str, value: Result<&str, String>)
    requires
        call_ensures(bundle_field, (bundle, key), value),
    ensures
        value is Ok <==> bundle@.dom().contains(key@),
        value matches Ok(v) ==> v@ == bundle@[key@],
        value matches Err(e) ==> e@ == "bundle is missing "@ + key@,
{
}

/// The line gives a key the hexadecimal digits of some bytes.
pub open spec fn tells(line: Seq<char>, key: Seq<char>, bytes: Seq<u8>) -> bool {
    line == key + "="@ + hex_encoded(bytes)
}

/// A field has the hexadecimal digits of some bytes.
pub open spec fn keeps(read: Map<Seq<char>, Seq<char>>, key: Seq<char>, bytes: Seq<u8>) -> bool {
    read.dom().contains(key) && read[key] == hex_encoded(bytes)
}

/// **Transfer bundles** are written line by line: a title, the circuit, the
/// proof, the root, and the numbered nullifiers and new commitments; and are
/// read back with each of these under its key.
pub proof fn lemma_transfer_written(
    bundle: &TransferBundle,
    text: String,
    path: &str,
    s: &str,
    read: Result<Bundle, String>,
)
    requires
        call_ensures(render_transfer, (bundle,), text),
        s@ == text@,
        call_ensures(read_bundle, (path, s), read),
    ensures
        ({
            let all = lines_of(text@);
            let n = bundle.nullifiers@.len();
            &&& all.len() == 6 + n + bundle.new_commitments@.len()
            &&& all[0] == "# attesta transfer proof bundle"@
            &&& all[1] == "circuit"@ + "="@ + "transfer"@
            &&& tells(all[2], "proof.a"@, bundle.proof.a@)
            &&& tells(all[3], "proof.b"@, bundle.proof.b@)
            &&& tells(all[4], "proof.c"@, bundle.proof.c@)
            &&& tells(all[5], "root"@, bundle.root@)
            &&& forall|i: int|
                0 <= i < n ==> tells(
                    all[6 + i],
                    "nullifier."@ + decimal(i as nat),
                    (#[trigger] bundle.nullifiers@[i])@,
                )
            &&& forall|i: int|
                0 <= i < bundle.new_commitments@.len() ==> tells(
                    all[6 + n + i],
                    "new_commitment."@ + decimal(i as nat),
                    (#[trigger] bundle.new_commitments@[i])@,
                )
        }),
        read matches Ok(b) && {
            &&& b@.dom().contains("circuit"@) && b@["circuit"@] == "transfer"@
            &&& keeps(b@, "proof.a"@, bundle.proof.a@)
            &&& keeps(b@, "proof.b"@, bundle.proof.b@)
            &&& keeps(b@, "proof.c"@, bundle.proof.c@)
            &&& keeps(b@, "root"@, bundle.root@)
            &&& forall|i: int|
                0 <= i < bundle.nullifiers@.len() ==> keeps(
                    b@,
                    "nullifier."@ + decimal(i as nat),
                    (#[trigger] bundle.nullifiers@[i])@,
                )
            &&& forall|i: int|
                0 <= i < bundle.new_commitments@.len() ==> keeps(
                    b@,
                    "new_commitment."@ + decimal(i as nat),
                    (#[trigger] bundle.new_commitments@[i])@,
                )
        },
{
    let fields = transfer_fields(*bundle);
    lemma_transfer_bundle_roundtrip(path@, *bundle);
    lemma_by_key(fields);
    let all = lines_of(text@);
    let n = bundle.nullifiers@.len() as int;
    assert(all == bundle_lines("# attesta transfer proof bundle"@, fields));
    assert(fields[0] == ("circuit"@, "transfer"@));
    assert(fields[1] == ("proof.a"@, hex_encoded(bundle.proof.a@)));
    assert(fields[2] == ("proof.b"@, hex_encoded(bundle.proof.b@)));
    assert(fields[3] == ("proof.c"@, hex_encoded(bundle.proof.c@)));
    assert(fields[4] == ("root"@, hex_encoded(bundle.root@)));
    assert forall|i: int| 0 <= i < n implies fields[5 + i] == (
        "nullifier."@ + decimal(i as nat),
        hex_encoded((#[trigger] bundle.nullifiers@[i])@),
    ) by {
    }
    assert forall|i: int| 0 <= i < bundle.new_commitments@.len() implies fields[5 + n + i] == (
        "new_commitment."@ + decimal(i as nat),
        hex_encoded((#[trigger] bundle.new_commitments@[i])@),
    ) by {
    }
    assert forall|i: int| 0 <= i < fields.len() implies all[i + 1] == field_line(
        #[trigger] fields[i],
    ) by {
    }
    assert forall|i: int| 0 <= i < n implies tells(
        all[6 + i],
        "nullifier."@ + decimal(i as nat),
        (#[trigger] bundle.nullifiers@[i])@,
    ) by {
        assert(all[(5 + i) + 1] == field_line(fields[5 + i]));
    }
    assert forall|i: int| 0 <= i < bundle.new_commitments@.len() implies tells(
        all[6 + n + i],
        "new_commitment."@ + decimal(i as nat),
        (#[trigger] bundle.new_commitments@[i])@,
    ) by {
        assert(all[(5 + n + i) + 1] == field_line(fields[5 + n + i]));
    }
    let b = read->Ok_0;
    assert(b@ == by_key(fields));
    assert forall|i: int| 0 <= i < n implies keeps(
        b@,
        "nullifier."@ + decimal(i as nat),
        (#[trigger] bundle.nullifiers@[i])@,
    ) by {
        assert(b@.dom().contains(fields[5 + i].0));
    }
    assert forall|i: int| 0 <= i < bundle.new_commitments@.len() implies keeps(
        b@,
        "new_commitment."@ + decimal(i as nat),
        (#[trigger] bundle.new_commitments@[i])@,
    ) by {
        assert(b@.dom().contains(fields[5 + n + i].0));
    }
}

/// **Withdraw bundles** are written line by line: a title, the circuit, the
/// proof, the root, the nullifier, the recipient and the amount; and are read
/// back with each of these under its key.
pub proof fn lemma_withdraw_written(
    bundle: &WithdrawBundle,
    text: String,
    path: &str,
    s: &str,
    read: Result<Bundle, String>,
)
    requires
        call_ensures(render_withdraw, (bundle,), text),
        s@ == text@,
        call_ensures(read_bundle, (path, s), read),
    ensures
        ({
            let all = lines_of(text@);
            &&& all.len() == 9
            &&& all[0] == "# attesta withdraw proof bundle"@
            &&& all[1] == "circuit"@ + "="@ + "withdraw"@
            &&& tells(all[2], "proof.a"@, bundle.proof.a@)
            &&& tells(all[3], "proof.b"@, bundle.proof.b@)
            &&& tells(all[4], "proof.c"@, bundle.proof.c@)
            &&& tells(all[5], "root"@, bundle.root@)
            &&& tells(all[6], "nullifier"@, bundle.nullifier@)
            &&& tells(all[7], "recipient_binding"@, bundle.recipient_binding@)
            &&& all[8] == "amount"@ + "="@ + decimal(bundle.amount as nat)
        }),
        read matches Ok(b) && {
            &&& b@.dom().contains("circuit"@) && b@["circuit"@] == "withdraw"@
            &&& keeps(b@, "proof.a"@, bundle.proof.a@)
            &&& keeps(b@, "proof.b"@, bundle.proof.b@)
            &&& keeps(b@, "proof.c"@, bundle.proof.c@)
            &&& keeps(b@, "root"@, bundle.root@)
            &&& keeps(b@, "nullifier"@, bundle.nullifier@)
            &&& keeps(b@, "recipient_binding"@, bundle.recipient_binding@)
            &&& b@.dom().contains("amount"@) && b@["amount"@] == decimal(bundle.amount as nat)
        },
{
    let fields = withdraw_fields(*bundle);
    lemma_withdraw_bundle_roundtrip(path@, *bundle);
    lemma_by_key(fields);
    let all = lines_of(text@);
    assert(all == bundle_lines("# attesta withdraw proof bundle"@, fields));
    assert forall|i: int| 0 <= i < fields.len() implies all[i + 1] == field_line(
        #[trigger] fields[i],
    ) by {
    }
    assert(fields[0] == ("circuit"@, "withdraw"@));
    assert(fields[1] == ("proof.a"@, hex_encoded(bundle.proof.a@)));
    assert(fields[2] == ("proof.b"@, hex_encoded(bundle.proof.b@)));
    assert(fields[3] == ("proof.c"@, hex_encoded(bundle.proof.c@)));
    assert(fields[4] == ("root"@, hex_encoded(bundle.root@)));
    assert(fields[5] == ("nullifier"@, hex_encoded(bundle.nullifier@)));
    assert(fields[6] == ("recipient_binding"@, hex_encoded(bundle.recipient_binding@)));
    assert(fields[7] == ("amount"@, decimal(bundle.amount as nat)));
}

/// A line that is neither a comment nor part of the proof.
pub open spec fn open_to_all(line: Seq<char>) -> bool {
    &&& !(line.len() > 0 && line[0] == '#')
    &&& !(line.len() >= 6 && line.take(6) == "proof."@)
}

/// The lines that are open to all, in their order.
pub open spec fn opened(all: Seq<Seq<char>>) -> Seq<Seq<char>> {
    all.filter(|line: Seq<char>| open_to_all(line))
}

proof fn lemma_opened(all: Seq<Seq<char>>)
    ensures
        public_lines(all) == opened(all),
    decreases all.len(),
{
    reveal(Seq::filter);
    if all.len() > 0 {
        lemma_opened(all.drop_last());
        let line = all.last();
        reveal_strlit("proof.");
        if "proof."@.is_prefix_of(line) {
            assert(line.take(6) =~= "proof."@);
        }
    }
}

/// **The summary** of a bundle is its lines that are neither comments nor part
/// of the proof, in their order.
pub proof fn lemma_summary(text: &str, summary: Vec<String>)
    requires
        call_ensures(public_summary, (text,), summary),
    ensures
        strings(summary@) == opened(lines_of(text@)),
{
    lemma_opened(lines_of(text@));
}

/// **Failures are told** with what they are about.
pub proof fn lemma_failures_told(e: &ProveError, text: String)
    requires
        call_ensures(ProveError::message, (e,), text),
    ensures
        e matches ProveError::ValueMismatch { spending, creating } ==> text@
            == "value mismatch: spending "@ + decimal(*spending as nat) + " but creating "@
            + decimal(*creating as nat),
        e matches ProveError::LogTooLong { size } ==> text@ == "commitment log has "@ + decimal(
            *size as nat,
        ) + " leaves, more than the tree holds"@,
        e matches ProveError::LeafOutOfRange { index, size } ==> text@ == "leaf index "@ + decimal(
            *index as nat,
        ) + " out of range (tree has "@ + decimal(*size as nat) + " leaves)"@,
        e matches ProveError::NoteMismatch { leaf } ==> text@
            == "note does not match the commitment at leaf "@ + decimal(*leaf as nat)
            + " — wrong sk, value, blinding, or index"@,
        e matches ProveError::Prover(why) ==> text@ == why@,
{
}

} // verus!
