//! Fusion of many generated single-entry programs into a few executables
//! ("cores"): each core declares and calls, in order, the renamed entry
//! functions of one batch of programs.
use vstd::prelude::*;

use crate::text::{decimal, push_char, push_decimal, replace_all, replace_str, zero_padded, lemma_decimal_injective};

verus! {

/// The entry function every generated program defines: `test_<lib>_api_sequence`.
pub open spec fn entry_base(lib: Seq<char>) -> Seq<char> {
    "test_"@ + lib + "_api_sequence"@
}

/// The entry function of the batch member at batch-local index `k`.
pub open spec fn entry_name(lib: Seq<char>, k: nat) -> Seq<char> {
    entry_base(lib) + "_"@ + decimal(k)
}

/// The source of a core driving the batch members `0..n`: the library's
/// includes, one declaration per member, and a `main` that announces and
/// calls each member in order.
pub open spec fn core_source(headers: Seq<char>, lib: Seq<char>, n: nat) -> Seq<char> {
    headers + "\n\n"@ + declarations(lib, n) + "\n\n"@ + "int main(int argc, char* argv[])\n{\n"@ + calls(lib, n)
        + "\treturn 0;\n"@ + "}\n"@
}

/// `int <entry>();` for the members `0..n`.
pub open spec fn declarations(lib: Seq<char>, n: nat) -> Seq<char>
    decreases n,
{
    if n == 0 {
        seq![]
    } else {
        declarations(lib, (n - 1) as nat) + "int "@ + entry_name(lib, (n - 1) as nat) + "();\n"@
    }
}

/// The announcement and the call of each member `0..n`.
pub open spec fn calls(lib: Seq<char>, n: nat) -> Seq<char>
    decreases n,
{
    if n == 0 {
        seq![]
    } else {
        calls(lib, (n - 1) as nat) + "\tstd::cout << \"Running program "@ + decimal((n - 1) as nat)
            + "...\" << std::endl;\n"@ + "\t"@ + entry_name(lib, (n - 1) as nat) + "();\n"@
    }
}

/// Member `k` of batch `b` when `n` programs are cut into batches of `size`
/// (one batch of everything when `size` is 0).
pub open spec fn batch_member(n: nat, size: nat, b: nat, k: nat) -> nat {
    if size == 0 { k } else { b * size + k }
}

/// Number of batches.
pub open spec fn batch_count(n: nat, size: nat) -> nat {
    if n == 0 {
        0
    } else if size == 0 {
        1
    } else {
        ((n + size - 1) as int / size as int) as nat
    }
}

/// Length of batch `b`.
pub open spec fn batch_len(n: nat, size: nat, b: nat) -> nat {
    if size == 0 {
        n
    } else if (b + 1) * size <= n {
        size
    } else {
        (n - b * size) as nat
    }
}

/// Batch-local indices give distinct entry names, so a batch of programs
/// that all define the same entry function links without a clash.
pub proof fn lemma_entry_names_distinct(lib: Seq<char>, k1: nat, k2: nat)
    requires
        k1 != k2,
    ensures
        entry_name(lib, k1) != entry_name(lib, k2),
{
    let pre = entry_base(lib) + "_"@;
    if entry_name(lib, k1) == entry_name(lib, k2) {
        assert(entry_name(lib, k1) == pre + decimal(k1));
        assert(entry_name(lib, k2) == pre + decimal(k2));
        assert((pre + decimal(k1)).subrange(pre.len() as int, (pre + decimal(k1)).len() as int) =~= decimal(k1));
        assert((pre + decimal(k2)).subrange(pre.len() as int, (pre + decimal(k2)).len() as int) =~= decimal(k2));
        lemma_decimal_injective(k1, k2);
    }
}

/// One core to build: its number, the programs it fuses (indices into the
/// program list, in order) and its source.
pub struct FusedCore {
    pub core_id: usize,
    pub members: Vec<usize>,
    pub source: String,
}

/// A set of programs to fuse in batches of `batch`.
pub struct CNTGProgram {
    /// The program files, in the order they are fused.
    pub programs: Vec<String>,
    /// Number of programs fused into one core.
    pub batch: usize,
    /// The library's name, which the entry functions carry.
    pub library: String,
    /// The library's `#include` lines.
    pub header_includes: String,
}

impl CNTGProgram {
    /// A fusion of `programs` in batches of `batch_size`.
    pub fn new(programs: Vec<String>, batch_size: usize, library: String, header_includes: String) -> (r: CNTGProgram)
        ensures
            r.programs == programs,
            r.batch == batch_size,
            r.library == library,
            r.header_includes == header_includes,
    {
        CNTGProgram { programs, batch: batch_size, library, header_includes }
    }

    /// The source of the core that drives `n` batch members.
    pub fn synthesis_batch(&self, n: usize) -> (r: String)
        ensures
            r@ == core_source(self.header_includes@, self.library@, n as nat),
    {
        let mut s = String::new();
        s.append(self.header_includes.as_str());
        s.append("\n\n");
        let mut k: usize = 0;
        while k < n
            invariant
                k <= n,
                s@ == self.header_includes@ + "\n\n"@ + declarations(self.library@, k as nat),
            decreases n - k,
        {
            s.append("int ");
            self.push_entry_name(&mut s, k);
            s.append("();\n");
            assert(s@ =~= self.header_includes@ + "\n\n"@ + declarations(self.library@, (k + 1) as nat));
            k += 1;
        }
        s.append("\n\n");
        s.append("int main(int argc, char* argv[])\n{\n");
        let ghost head = s@;
        assert(head =~= self.header_includes@ + "\n\n"@ + declarations(self.library@, n as nat) + "\n\n"@
            + "int main(int argc, char* argv[])\n{\n"@);
        let mut i: usize = 0;
        assert(calls(self.library@, 0) =~= seq![]);
        assert(s@ =~= head + calls(self.library@, 0));
        while i < n
            invariant
                i <= n,
                s@ == head + calls(self.library@, i as nat),
            decreases n - i,
        {
            s.append("\tstd::cout << \"Running program ");
            push_decimal(&mut s, i);
            s.append("...\" << std::endl;\n");
            s.append("\t");
            self.push_entry_name(&mut s, i);
            s.append("();\n");
            assert(s@ =~= head + calls(self.library@, (i + 1) as nat));
            i += 1;
        }
        s.append("\treturn 0;\n");
        s.append("}\n");
        assert(s@ =~= core_source(self.header_includes@, self.library@, n as nat));
        s
    }

    /// Appends the entry name of batch member `k`.
    fn push_entry_name(&self, s: &mut String, k: usize)
        ensures
            final(s)@ == old(s)@ + entry_name(self.library@, k as nat),
    {
        s.append("test_");
        s.append(self.library.as_str());
        s.append("_api_sequence");
        s.append("_");
        push_decimal(s, k);
        assert(final(s)@ =~= old(s)@ + entry_name(self.library@, k as nat));
    }

    /// Renames the entry function of a program's source to that of batch
    /// member `k`.
    pub fn change_driver_id(&self, source: &str, k: usize) -> (r: String)
        ensures
            r@ == replace_all(source@, entry_base(self.library@), entry_name(self.library@, k as nat)),
    {
        let mut base = String::new();
        base.append("test_");
        base.append(self.library.as_str());
        base.append("_api_sequence");
        let mut named = base.clone();
        named.append("_");
        push_decimal(&mut named, k);
        proof {
            reveal_strlit("test_");
        }
        assert(base@ =~= entry_base(self.library@));
        assert(named@ =~= entry_name(self.library@, k as nat));
        replace_str(source, base.as_str(), named.as_str())
    }

    /// Cuts the programs into consecutive batches of `batch` (one batch of
    /// everything when `batch` is 0) and gives each batch its core.
    pub fn synthesis(&self) -> (r: Vec<FusedCore>)
        ensures
            r@.len() == batch_count(self.programs@.len(), self.batch as nat),
            forall|b: int| 0 <= b < r@.len() ==> {
                let c = #[trigger] r@[b];
                &&& c.core_id == b
                &&& c.members@.len() == batch_len(self.programs@.len(), self.batch as nat, b as nat)
                &&& forall|k: int| 0 <= k < c.members@.len() ==> c.members@[k] == batch_member(
                    self.programs@.len(),
                    self.batch as nat,
                    b as nat,
                    k as nat,
                )
                &&& c.source@ == core_source(self.header_includes@, self.library@, c.members@.len() as nat)
            },
    {
        let n = self.programs.len();
        let size = self.batch;
        let mut out: Vec<FusedCore> = Vec::new();
        if n == 0 {
            return out;
        }
        let mut start: usize = 0;
        let mut core_id: usize = 0;
        while start < n
            invariant
                n == self.programs@.len(),
                size == self.batch,
                n > 0,
                core_id == out@.len(),
                size == 0 ==> (core_id == 0 && start == 0) || (core_id == 1 && start == n),
                size > 0 && start == n ==> core_id == batch_count(n as nat, size as nat),
                size > 0 && start < n ==> core_id * size == start,
                start < n ==> core_id <= start,
                start <= n,
                forall|b: int| 0 <= b < out@.len() ==> {
                    let c = #[trigger] out@[b];
                    &&& c.core_id == b
                    &&& c.members@.len() == batch_len(n as nat, size as nat, b as nat)
                    &&& forall|k: int| 0 <= k < c.members@.len() ==> c.members@[k] == batch_member(n as nat, size as nat, b as nat, k as nat)
                    &&& c.source@ == core_source(self.header_includes@, self.library@, c.members@.len() as nat)
                },
            decreases n - start,
        {
            let end = if size == 0 || n - start <= size { n } else { start + size };
            let mut members: Vec<usize> = Vec::new();
            let mut j: usize = start;
            while j < end
                invariant
                    start <= j <= end,
                    members@.len() == j - start,
                    forall|k: int| 0 <= k < members@.len() ==> members@[k] == start + k,
                decreases end - j,
            {
                members.push(j);
                j += 1;
            }
            let source = self.synthesis_batch(end - start);
            let ghost b = core_id as nat;
            proof {
                if size > 0 {
                    assert(start == b * size);
                    if n - start <= size {
                        assert((b + 1) * size >= n) by (nonlinear_arith)
                            requires
                                start == b * size,
                                n - start <= size,
                        ;
                        if (b + 1) * size <= n {
                            assert((b + 1) * size == n) by (nonlinear_arith)
                                requires
                                    (b + 1) * size >= n,
                                    (b + 1) * size <= n,
                            ;
                        }
                    } else {
                        assert((b + 1) * size <= n) by (nonlinear_arith)
                            requires
                                start == b * size,
                                n - start > size,
                        ;
                    }
                }
            }
            let ghost mv = members@;
            let ghost sv = source@;
            assert(mv.len() == batch_len(n as nat, size as nat, b)) by {
                if size > 0 {
                    assert(start == b * size);
                    assert((b + 1) * size == b * size + size) by (nonlinear_arith);
                    if n - start <= size {
                        assert(end == n);
                    } else {
                        assert(end == start + size);
                    }
                }
            }
            assert forall|k: int| 0 <= k < mv.len() implies mv[k] == batch_member(n as nat, size as nat, b, k as nat) by {
                if size > 0 {
                    assert(start == b * size);
                }
            }
            let ghost o0 = out@;
            out.push(FusedCore { core_id, members, source });
            assert forall|x: int| 0 <= x < out@.len() implies {
                let c = #[trigger] out@[x];
                &&& c.core_id == x
                &&& c.members@.len() == batch_len(n as nat, size as nat, x as nat)
                &&& forall|k: int| 0 <= k < c.members@.len() ==> c.members@[k] == batch_member(n as nat, size as nat, x as nat, k as nat)
                &&& c.source@ == core_source(self.header_includes@, self.library@, c.members@.len() as nat)
            } by {
                if x < o0.len() {
                    assert(out@[x] == o0[x]);
                }
            }
            proof {
                if size > 0 && end == n {
                    assert(batch_count(n as nat, size as nat) == b + 1) by (nonlinear_arith)
                        requires
                            start == b * size,
                            n - start <= size,
                            n > start,
                            size > 0,
                    ;
                }
                if size > 0 && end < n {
                    assert((b + 1) * size == end) by (nonlinear_arith)
                        requires
                            start == b * size,
                            end == start + size,
                    ;
                    assert(b + 1 <= end) by (nonlinear_arith)
                        requires
                            (b + 1) * size == end,
                            size > 0,
                    ;
                }
            }
            start = end;
            core_id += 1;
        }
        proof {
            if size == 0 {
                assert(out@.len() == 1);
            }
        }
        out
    }
}

/// The directory of core `core_id`: `Core_` and the number on three digits.
pub fn get_core_dir_name(core_id: usize) -> (r: String)
    ensures
        r@ == "Core_"@ + zero_padded(core_id as nat, 3),
{
    let mut s = String::new();
    s.append("Core_");
    push_padded(&mut s, core_id, 3);
    s
}

/// The working copy of program `id`: `id_`, the number on six digits, `.cc`.
pub fn seed_file_name(id: usize) -> (r: String)
    ensures
        r@ == "id_"@ + zero_padded(id as nat, 6) + ".cc"@,
{
    let mut s = String::new();
    s.append("id_");
    push_padded(&mut s, id, 6);
    s.append(".cc");
    s
}

/// The executable built in a core directory.
pub fn get_core_path(core_dir: &str) -> (r: String)
    ensures
        r@ == core_dir@ + "/core"@,
{
    let mut s = core_dir.to_string();
    s.append("/core");
    s
}

/// Number of decimal digits of `n`.
fn digit_count(n: usize) -> (r: usize)
    ensures
        r == decimal(n as nat).len(),
    decreases n,
{
    if n < 10 {
        1
    } else {
        let r = digit_count(n / 10);
        proof {
            crate::text::lemma_decimal_nonempty(n as nat);
            assert(decimal(n as nat).len() == decimal((n / 10) as nat).len() + 1);
            assert(decimal((n / 10) as nat).len() <= n / 10 + 1) by {
                lemma_decimal_len_bounded((n / 10) as nat);
            }
        }
        r + 1
    }
}

proof fn lemma_decimal_len_bounded(n: nat)
    ensures
        decimal(n).len() <= n + 1,
    decreases n,
{
    if n >= 10 {
        lemma_decimal_len_bounded(n / 10);
    }
}

/// Appends `n` left-padded with zeros to `width` digits.
fn push_padded(s: &mut String, n: usize, width: usize)
    ensures
        final(s)@ == old(s)@ + zero_padded(n as nat, width as nat),
{
    let d = digit_count(n);
    let ghost s0 = s@;
    if d < width {
        let mut i: usize = 0;
        while i < width - d
            invariant
                d < width,
                i <= width - d,
                s@ == s0 + Seq::new(i as nat, |_j: int| '0'),
            decreases width - d - i,
        {
            push_char(s, '0');
            assert(s@ =~= s0 + Seq::new((i + 1) as nat, |_j: int| '0'));
            i += 1;
        }
    }
    let ghost s1 = s@;
    push_decimal(s, n);
    assert(s@ =~= s0 + zero_padded(n as nat, width as nat));
}

} // verus!
