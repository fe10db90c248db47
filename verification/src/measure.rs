//! The benchmark scenario: a random table, a witness drawn from it, one proof
//! and its verification.

use vstd::prelude::*;
use vstd::string::StringExecFns;
use ark_std::rand::rngs::StdRng;
use crate::data_structures::{ProvingKey, Statement, Witness};
use crate::domain::{
    is_pow2, is_power_of_two, max_domain_size, lemma_padded_size_bound, lemma_padded_size_unique,
};
use crate::error::Error;
use crate::field::{Scalar, all_wf, values};
use crate::indexer::{CommonPreprocessedInput, Index};
use crate::kzg::Kzg;
use crate::modmath::canon;
use crate::poly::{peval, lemma_peval_effective};
use crate::prover::{Prover, all_in_table, first_row, provable};
use crate::table::Table;
use crate::utils::{random_index, random_scalar, test_rng, unsafe_setup_from_rng};
use crate::completeness::lemma_completeness;
use crate::verify::{Verifier, VerifierKey};

verus! {

/// Everything that one run of the scenario needs.
pub struct Prepared {
    pub table: Table,
    pub index: Index,
    pub statement: Statement,
    pub common: CommonPreprocessedInput,
    pub pk: ProvingKey,
    pub vk: VerifierKey,
    pub witness: Witness,
}

/// The outcome of one run: the label under which it is reported, and whether
/// the verifier accepted the proof.
pub struct Measurement {
    pub label: String,
    pub accepted: bool,
}

impl Prepared {
    /// Keys, table, index, witness and statement fit together.
    pub open spec fn wf(&self) -> bool {
        &&& self.pk.wf()
        &&& self.table.wf()
        &&& self.witness.wf()
        &&& self.index.wf_for(&self.table, self.pk.tau())
        &&& self.common.wf_for(&self.table, self.pk.tau())
        &&& self.vk.wf()
        &&& self.vk.tau() == self.pk.tau()
        &&& self.vk.table_size == self.table.size
        &&& self.vk.witness_size == self.witness.size
        &&& self.vk.domain_size == self.witness.domain_size
        &&& self.pk.srs_g1.len() == self.table.size
        &&& self.witness.size < self.table.size
        &&& self.statement.f.wf()
        &&& self.statement.f.log() == canon(peval(self.witness.coeffs(), self.pk.tau()))
        &&& all_in_table(&self.table, &self.witness)
    }
}

/// The sizes and row numbers from which a scenario can be prepared: the
/// table size a power of two from 2 to `2^28`, at least one row number and
/// fewer than the table has rows, every row number below the table size.
pub open spec fn preparable(n: usize, rows: Seq<usize>) -> bool {
    &&& is_pow2(n as int)
    &&& 2 <= n <= max_domain_size()
    &&& 1 <= rows.len() < n
    &&& forall|j: int| 0 <= j < rows.len() ==> #[trigger] rows[j] < n
}

/// The decimal digit `d`.
pub open spec fn digit(d: int) -> char {
    if d == 0 {
        '0'
    } else if d == 1 {
        '1'
    } else if d == 2 {
        '2'
    } else if d == 3 {
        '3'
    } else if d == 4 {
        '4'
    } else if d == 5 {
        '5'
    } else if d == 6 {
        '6'
    } else if d == 7 {
        '7'
    } else if d == 8 {
        '8'
    } else {
        '9'
    }
}

/// The decimal numeral of `n`.
pub open spec fn decimal(n: nat) -> Seq<char>
    decreases n,
{
    if n < 10 {
        seq![digit(n as int)]
    } else {
        decimal(n / 10).push(digit((n % 10) as int))
    }
}

/// The label of the range-check scenario: `CPRange(b,n)`.
pub open spec fn cprange_label(b: usize, n: usize) -> Seq<char> {
    seq!['C', 'P', 'R', 'a', 'n', 'g', 'e', '('] + decimal(b as nat) + seq![','] + decimal(n as nat)
        + seq![')']
}

/// Appends the decimal numeral of `n`.
fn push_decimal(out: &mut String, n: usize)
    ensures
        final(out)@ == old(out)@ + decimal(n as nat),
    decreases n,
{
    if n >= 10 {
        push_decimal(out, n / 10);
    }
    let d = n % 10;
    let ghost before = out@;
    if d == 0 {
        proof {
            reveal_strlit("0");
        }
        out.append("0");
    } else if d == 1 {
        proof {
            reveal_strlit("1");
        }
        out.append("1");
    } else if d == 2 {
        proof {
            reveal_strlit("2");
        }
        out.append("2");
    } else if d == 3 {
        proof {
            reveal_strlit("3");
        }
        out.append("3");
    } else if d == 4 {
        proof {
            reveal_strlit("4");
        }
        out.append("4");
    } else if d == 5 {
        proof {
            reveal_strlit("5");
        }
        out.append("5");
    } else if d == 6 {
        proof {
            reveal_strlit("6");
        }
        out.append("6");
    } else if d == 7 {
        proof {
            reveal_strlit("7");
        }
        out.append("7");
    } else if d == 8 {
        proof {
            reveal_strlit("8");
        }
        out.append("8");
    } else {
        proof {
            reveal_strlit("9");
        }
        out.append("9");
    }
    proof {
        assert(out@ =~= before.push(digit(d as int)));
        if n >= 10 {
            assert(before == old(out)@ + decimal((n / 10) as nat));
            assert(out@ =~= old(out)@ + decimal(n as nat));
        } else {
            assert(out@ =~= old(out)@ + decimal(n as nat));
        }
    }
}

/// A random table of `n` rows, a witness that takes its rows
/// `subvector_indices`, and the keys, index and statement for them. The
/// secret of the reference string is drawn from `rng` and dropped.
pub fn prepare(n: usize, subvector_indices: &Vec<usize>, rng: &mut StdRng) -> (r: Result<
    Prepared,
    Error,
>)
    ensures
        r.is_ok() == preparable(n, subvector_indices@),
        r matches Ok(p) ==> p.wf() && p.table.size == n && p.witness.size
            == subvector_indices.len() && forall|j: int|
            0 <= j < subvector_indices.len() ==> (#[trigger] p.witness.values[j])@
                == p.table.values[subvector_indices[j] as int]@,
        r matches Err(e) ==> e == if is_pow2(n as int) && 2 <= n <= max_domain_size() {
            Error::SizingError
        } else {
            Error::TableSizeError
        },
{
    if n < 2 || n > 0x1000_0000 || !is_power_of_two(n) {
        return Err(Error::TableSizeError);
    }
    let m = subvector_indices.len();
    if m < 1 || m >= n {
        return Err(Error::SizingError);
    }
    let mut k: usize = 0;
    while k < m
        invariant
            k <= m,
            m == subvector_indices.len(),
            is_pow2(n as int),
            2 <= n <= max_domain_size(),
            forall|j: int| 0 <= j < k ==> #[trigger] subvector_indices[j] < n,
        decreases m - k,
    {
        if subvector_indices[k] >= n {
            return Err(Error::SizingError);
        }
        k += 1;
    }
    let srs = unsafe_setup_from_rng(n - 1, n, rng);
    let srs_g1 = srs.0;
    let srs_g2 = srs.1;
    let mut table_values: Vec<Scalar> = Vec::new();
    let mut i: usize = 0;
    while i < n
        invariant
            i <= n,
            table_values.len() == i,
            all_wf(table_values@),
        decreases n - i,
    {
        table_values.push(random_scalar(rng));
        i += 1;
    }
    let table = match Table::new(&table_values) {
        Ok(t) => t,
        Err(e) => {
            return Err(e);
        },
    };
    let index = match Index::gen(&srs_g1, &srs_g2, &table) {
        Ok(x) => x,
        Err(e) => {
            return Err(e);
        },
    };
    let mut witness_values: Vec<Scalar> = Vec::new();
    let mut j: usize = 0;
    while j < m
        invariant
            j <= m,
            m == subvector_indices.len(),
            table_values.len() == n,
            all_wf(table_values@),
            forall|l: int| 0 <= l < m ==> #[trigger] subvector_indices[l] < n,
            witness_values.len() == j,
            all_wf(witness_values@),
            forall|l: int|
                0 <= l < j ==> #[trigger] witness_values[l] == table_values[subvector_indices[l] as int],
        decreases m - j,
    {
        witness_values.push(table_values[subvector_indices[j]]);
        j += 1;
    }
    let witness = match Witness::new(&witness_values) {
        Ok(w) => w,
        Err(e) => {
            return Err(e);
        },
    };
    proof {
        lemma_padded_size_bound(witness.domain_size as int, m as int, n as int);
        lemma_padded_size_unique(witness.domain_size as int, m as int);
        lemma_peval_effective(witness.coeffs(), 0);
    }
    let f = match Kzg::commit_g1(&srs_g1, &witness.f) {
        Ok(c) => c,
        Err(e) => {
            return Err(e);
        },
    };
    let vk = match VerifierKey::new(&srs_g2, table.size, witness.size) {
        Ok(v) => v,
        Err(e) => {
            return Err(e);
        },
    };
    let common = match Index::compute_common(&srs_g2, &table) {
        Ok(c) => c,
        Err(e) => {
            return Err(e);
        },
    };
    proof {
        assert forall|l: int| 0 <= l < witness.values.len() implies first_row(
            values(table.values@),
            #[trigger] witness.values[l]@,
        ) >= 0 by {
            let row = subvector_indices[l] as int;
            assert(witness_values[l] == table_values[row]);
            assert(values(table.values@)[row] == witness.values[l]@);
            crate::prover::lemma_first_row_exists(values(table.values@), witness.values[l]@, row);
        }
    }
    Ok(Prepared { table, index, statement: Statement { f }, common, pk: ProvingKey { srs_g1 }, vk, witness })
}

/// One proof for the prepared scenario and its verification. The result is
/// whether the verifier accepted, which it always does; it is an error where
/// the prover met a challenge on which the argument is undefined.
pub fn prove_and_verify(p: &Prepared) -> (r: Result<bool, Error>)
    requires
        p.wf(),
    ensures
        r.is_ok() == provable(&p.pk, &p.index, &p.table, &p.witness, &p.statement),
        r matches Ok(accepted) ==> accepted,
        r matches Err(e) ==> e == Error::ChallengeError,
{
    let proof = match Prover::prove(&p.pk, &p.index, &p.table, &p.witness, &p.statement) {
        Ok(proof) => proof,
        Err(e) => {
            return Err(e);
        },
    };
    proof {
        lemma_completeness(
            &p.pk,
            &p.vk,
            &p.index,
            &p.common,
            &p.table,
            &p.witness,
            &p.statement,
            proof,
        );
    }
    match Verifier::verify(&p.vk, &p.common, &p.statement, &proof) {
        Ok(()) => Ok(true),
        Err(_) => Ok(false),
    }
}

/// The scenario for a table of `table_size` rows and a witness of
/// `lookup_size` entries, whose rows are drawn with the benchmark generator:
/// prepares, proves and verifies once, and reports under `msg`.
pub fn measure_cq(msg: String, table_size: usize, lookup_size: usize) -> (r: Result<
    Measurement,
    Error,
>)
    ensures
        r matches Ok(m) ==> m.label@ == msg@ && m.accepted && is_pow2(table_size as int) && 2
            <= table_size <= max_domain_size() && 1 <= lookup_size < table_size,
        r matches Err(e) ==> e == if !(is_pow2(table_size as int) && 2 <= table_size
            <= max_domain_size()) {
            Error::TableSizeError
        } else if !(1 <= lookup_size < table_size) {
            Error::SizingError
        } else {
            Error::ChallengeError
        },
{
    if table_size < 2 || table_size > 0x1000_0000 || !is_power_of_two(table_size) {
        return Err(Error::TableSizeError);
    }
    if lookup_size < 1 || lookup_size >= table_size {
        return Err(Error::SizingError);
    }
    let mut rng = test_rng();
    let mut rows: Vec<usize> = Vec::new();
    let mut j: usize = 0;
    while j < lookup_size
        invariant
            j <= lookup_size,
            table_size >= 2,
            rows.len() == j,
            forall|l: int| 0 <= l < j ==> #[trigger] rows[l] < table_size,
        decreases lookup_size - j,
    {
        let row = match random_index(&mut rng, table_size - 1) {
            Some(row) => row,
            None => 0,
        };
        rows.push(row);
        j += 1;
    }
    let prepared = match prepare(table_size, &rows, &mut rng) {
        Ok(p) => p,
        Err(e) => {
            return Err(e);
        },
    };
    let accepted = match prove_and_verify(&prepared) {
        Ok(a) => a,
        Err(e) => {
            return Err(e);
        },
    };
    Ok(Measurement { label: msg, accepted })
}

/// The range-check scenario: a lookup of `n` values, at least one and fewer
/// than `b`, into the table of `b` rows, reported as `CPRange(b,n)`.
pub fn measure_cprange(b: usize, n: usize) -> (r: Result<Measurement, Error>)
    ensures
        r matches Ok(m) ==> m.label@ == cprange_label(b, n) && m.accepted && is_pow2(b as int)
            && 2 <= b <= max_domain_size() && 1 <= n < b,
        r matches Err(e) ==> e == if !(is_pow2(b as int) && 2 <= b <= max_domain_size()) {
            Error::TableSizeError
        } else if !(1 <= n < b) {
            Error::SizingError
        } else {
            Error::ChallengeError
        },
{
    let mut label = String::from_str("CPRange(");
    proof {
        reveal_strlit("CPRange(");
        reveal_strlit(",");
        reveal_strlit(")");
    }
    push_decimal(&mut label, b);
    label.append(",");
    push_decimal(&mut label, n);
    label.append(")");
    proof {
        assert(label@ =~= cprange_label(b, n));
    }
    measure_cq(label, b, n)
}

} // verus!
