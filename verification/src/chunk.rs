use crate::opcode::{is_jump, opcode_text, with_target, Opcode};
use crate::text::{nat_text, push_char, usize_text};
use crate::value::Value;
use vstd::prelude::*;
use vstd::string::StringExecFns;

verus! {

/// A compiled unit: instructions, their constants and source lines.
#[derive(Debug)]
pub struct Chunk {
    /// Compiled instructions.
    pub code: Vec<Opcode>,
    /// Constant pool — literals referenced by index from opcodes.
    pub consts: Vec<Value>,
    /// Source lines parallel to `code` (for error reporting).
    pub lines: Vec<u32>,
    /// Human-readable name (function/task name, or "<script>").
    pub name: String,
}

/// The constant at `i` exists and is a string.
pub open spec fn is_str_const(consts: Seq<Value>, i: usize) -> bool {
    i < consts.len() && consts[i as int] is Str
}

/// Every index that `op` holds points where it should: a constant into the pool, a name
/// to a string constant, and a jump target to at most `n`, the length of the code.
pub open spec fn op_ok(op: Opcode, consts: Seq<Value>, n: nat) -> bool {
    match op {
        Opcode::LoadConst(i) => i < consts.len(),
        Opcode::LoadGlobal(i) => is_str_const(consts, i),
        Opcode::StoreGlobal(i) => is_str_const(consts, i),
        Opcode::GetField(i) => is_str_const(consts, i),
        Opcode::SetField(i) => is_str_const(consts, i),
        Opcode::ImportModule(i) => is_str_const(consts, i),
        Opcode::CallMethod { method, .. } => is_str_const(consts, method),
        Opcode::ImportFields { module, fields } => is_str_const(consts, module) && forall|k: int|
            0 <= k < fields@.len() ==> is_str_const(consts, #[trigger] fields@[k].0),
        Opcode::Jump(t) => t <= n,
        Opcode::JumpIfFalse(t) => t <= n,
        Opcode::JumpIfTrue(t) => t <= n,
        Opcode::JumpIfFalseAnd(t) => t <= n,
        Opcode::JumpIfTrueOr(t) => t <= n,
        Opcode::PushTry(t) => t <= n,
        _ => true,
    }
}

/// A chunk whose lines run parallel to its code, and whose instructions all point where
/// they should (see `op_ok`).
pub open spec fn chunk_wf(c: &Chunk) -> bool {
    &&& c.lines@.len() == c.code@.len()
    &&& forall|i: int| 0 <= i < c.code@.len() ==> op_ok(#[trigger] c.code@[i], c.consts@, c.code@.len())
}

/// `new` starts with all of `old`.
pub open spec fn prefix_of<T>(old: Seq<T>, new: Seq<T>) -> bool {
    &&& old.len() <= new.len()
    &&& forall|i: int| 0 <= i < old.len() ==> new[i] == old[i]
}

pub proof fn lemma_prefix_trans<T>(a: Seq<T>, b: Seq<T>, c: Seq<T>)
    requires
        prefix_of(a, b),
        prefix_of(b, c),
    ensures
        prefix_of(a, c),
{
    assert forall|i: int| 0 <= i < a.len() implies c[i] == a[i] by {
        assert(b[i] == a[i]);
    }
}

/// An instruction that points where it should keeps doing so when constants and code are
/// added.
pub proof fn lemma_op_ok_grows(op: Opcode, c1: Seq<Value>, n1: nat, c2: Seq<Value>, n2: nat)
    requires
        op_ok(op, c1, n1),
        prefix_of(c1, c2),
        n1 <= n2,
    ensures
        op_ok(op, c2, n2),
{
    match op {
        Opcode::ImportFields { module, fields } => {
            assert forall|k: int| 0 <= k < fields@.len() implies is_str_const(
                c2,
                #[trigger] fields@[k].0,
            ) by {
                assert(is_str_const(c1, fields@[k].0));
            }
        },
        _ => {},
    }
}

/// The index of the first string constant in `consts` with the text `s`, if any.
pub open spec fn find_str(consts: Seq<Value>, s: Seq<char>) -> Option<int>
    decreases consts.len(),
{
    if consts.len() == 0 {
        None
    } else {
        match find_str(consts.drop_last(), s) {
            Some(i) => Some(i),
            None => if consts.last() matches Value::Str(c) && c@ == s {
                Some(consts.len() - 1)
            } else {
                None
            },
        }
    }
}

/// The pool after adding `val` to `consts`, with the index of the added value: a string
/// that the pool already holds is not added again, and its first index is given.
pub open spec fn pool_add(consts: Seq<Value>, val: Value) -> (Seq<Value>, int) {
    let found = match val {
        Value::Str(s) => find_str(consts, s@),
        _ => None,
    };
    match found {
        Some(i) => (consts, i),
        None => (consts.push(val), consts.len() as int),
    }
}

/// `s` right-aligned in a field of `w` characters: spaces in front when it is shorter.
pub open spec fn pad_left(s: Seq<char>, w: nat) -> Seq<char> {
    if s.len() < w {
        Seq::new((w - s.len()) as nat, |i: int| ' ') + s
    } else {
        s
    }
}

/// The line of a listing for the constant at `i`, shown as `text`.
pub open spec fn const_line(i: nat, text: Seq<char>) -> Seq<char> {
    "  ["@ + pad_left(nat_text(i), 3) + "] "@ + text
}

/// The line of a listing for the instruction at `i`, from the source line `line`.
pub open spec fn code_line(i: nat, line: nat, op: Opcode) -> Seq<char> {
    "  "@ + pad_left(nat_text(i), 4) + "  line "@ + pad_left(nat_text(line), 3) + "  "@
        + opcode_text(op)
}

/// The source line recorded for instruction `i`, or 0 when none is.
pub open spec fn line_at(lines: Seq<u32>, i: int) -> nat {
    if 0 <= i < lines.len() {
        lines[i] as nat
    } else {
        0
    }
}

/// The lines of the listing of `c`, each constant shown by the text in `const_texts`: a
/// heading with the name, the constants, the instructions with their source lines, and an
/// empty line.
pub open spec fn listing(c: Chunk, const_texts: Seq<Seq<char>>) -> Seq<Seq<char>> {
    seq!["=== "@ + c.name@ + " ==="@, "constants ("@ + nat_text(c.consts@.len()) + "):"@]
        + Seq::new(const_texts.len(), |i: int| const_line(i as nat, const_texts[i]))
        + seq!["code ("@ + nat_text(c.code@.len()) + " instructions):"@]
        + Seq::new(
        c.code@.len(),
        |i: int| code_line(i as nat, line_at(c.lines@, i), c.code@[i]),
    ) + seq![Seq::<char>::empty()]
}

/// Appends `s` to `out`, right-aligned in a field of `w` characters.
fn push_padded(out: &mut String, s: &String, w: usize)
    ensures
        final(out)@ == old(out)@ + pad_left(s@, w as nat),
{
    let n = s.unicode_len();
    let mut k: usize = n;
    let ghost o0 = out@;
    while k < w
        invariant
            n == s@.len(),
            n <= k,
            k <= w || n >= w,
            n >= w ==> k == n,
            out@ == o0 + Seq::new((k - n) as nat, |i: int| ' '),
        decreases w - k,
    {
        push_char(out, ' ');
        k = k + 1;
        proof {
            assert(out@ =~= o0 + Seq::new((k - n) as nat, |i: int| ' '));
        }
    }
    out.append(s.as_str());
    proof {
        if n < w {
            assert(out@ =~= o0 + pad_left(s@, w as nat));
        } else {
            assert(Seq::new((k - n) as nat, |i: int| ' ') =~= Seq::<char>::empty());
            assert(out@ =~= o0 + pad_left(s@, w as nat));
        }
    }
}

impl Chunk {
    pub fn new(name: &str) -> (r: Self)
        ensures
            r.code@ == Seq::<Opcode>::empty(),
            r.consts@ == Seq::<Value>::empty(),
            r.lines@ == Seq::<u32>::empty(),
            r.name@ == name@,
    {
        Self { code: Vec::new(), consts: Vec::new(), lines: Vec::new(), name: name.to_owned() }
    }

    /// Append an instruction, recording its source line; give its index.
    pub fn emit(&mut self, op: Opcode, line: u32) -> (r: usize)
        ensures
            r == old(self).code@.len(),
            final(self).code@ == old(self).code@.push(op),
            final(self).lines@ == old(self).lines@.push(line),
            final(self).consts@ == old(self).consts@,
            final(self).name == old(self).name,
            chunk_wf(&*old(self)) && op_ok(op, old(self).consts@, old(self).code@.len() + 1)
                ==> chunk_wf(&*final(self)),
    {
        proof {
            if chunk_wf(&*self) {
                assert forall|i: int| 0 <= i < self.code@.len() implies op_ok(
                    #[trigger] self.code@[i],
                    self.consts@,
                    self.code@.len() + 1,
                ) by {
                    lemma_op_ok_grows(self.code@[i], self.consts@, self.code@.len() as nat, self.consts@, self.code@.len() + 1);
                }
            }
        }
        let idx = self.code.len();
        self.code.push(op);
        self.lines.push(line);
        idx
    }

    /// Append a constant to the pool, returning its index.
    /// Deduplicates strings to keep the pool compact: a string already in the pool is not
    /// added again, and the index of its first occurrence is returned.
    pub fn add_const(&mut self, val: Value) -> (r: usize)
        ensures
            final(self).code@ == old(self).code@,
            final(self).lines@ == old(self).lines@,
            final(self).name == old(self).name,
            (final(self).consts@, r as int) == pool_add(old(self).consts@, val),
            r < final(self).consts@.len(),
            prefix_of(old(self).consts@, final(self).consts@),
            chunk_wf(&*old(self)) ==> chunk_wf(&*final(self)),
    {
        if let Value::Str(s) = &val {
            let mut i: usize = 0;
            while i < self.consts.len()
                invariant
                    *self == *old(self),
                    val matches Value::Str(v) && v@ == s@,
                    find_str(self.consts@.subrange(0, i as int), s@) is None,
                    i <= self.consts@.len(),
                decreases self.consts.len() - i,
            {
                proof {
                    assert(self.consts@.subrange(0, i + 1).drop_last() =~= self.consts@.subrange(
                        0,
                        i as int,
                    ));
                }
                if let Value::Str(cs) = &self.consts[i] {
                    if **cs == **s {
                        proof {
                            lemma_find_str_prefix(self.consts@, s@, i + 1);
                        }
                        return i;
                    }
                }
                i = i + 1;
            }
            proof {
                assert(self.consts@.subrange(0, i as int) =~= self.consts@);
            }
        }
        let idx = self.consts.len();
        let ghost c0 = self.consts@;
        self.consts.push(val);
        proof {
            if chunk_wf(&*old(self)) {
                assert forall|i: int| 0 <= i < self.code@.len() implies op_ok(
                    #[trigger] self.code@[i],
                    self.consts@,
                    self.code@.len() as nat,
                ) by {
                    lemma_op_ok_grows(self.code@[i], c0, self.code@.len() as nat, self.consts@, self.code@.len() as nat);
                }
            }
        }
        idx
    }

    /// Emit a placeholder jump (target = 0). Returns the instruction index
    /// so it can be patched later with `patch_jump`.
    pub fn emit_jump(&mut self, op: Opcode, line: u32) -> (r: usize)
        requires
            is_jump(op),
        ensures
            r == old(self).code@.len(),
            final(self).code@ == old(self).code@.push(with_target(op, 0)),
            final(self).lines@ == old(self).lines@.push(line),
            final(self).consts@ == old(self).consts@,
            final(self).name == old(self).name,
            chunk_wf(&*old(self)) ==> chunk_wf(&*final(self)),
    {
        self.emit(op.retarget(0), line)
    }

    /// Patch a previously emitted jump so its target is the *current* end of
    /// the instruction stream.
    pub fn patch_jump(&mut self, jump_idx: usize)
        requires
            jump_idx < old(self).code@.len(),
            is_jump(old(self).code@[jump_idx as int]),
        ensures
            final(self).code@ == old(self).code@.update(
                jump_idx as int,
                with_target(old(self).code@[jump_idx as int], old(self).code@.len() as usize),
            ),
            final(self).lines@ == old(self).lines@,
            final(self).consts@ == old(self).consts@,
            final(self).name == old(self).name,
            chunk_wf(&*old(self)) ==> chunk_wf(&*final(self)),
    {
        let target = self.code.len();
        let op = self.code[jump_idx].retarget(target);
        self.code.set(jump_idx, op);
    }

    /// The lines of a human-readable listing of the chunk, each constant shown by the text
    /// at its index in `const_texts`.
    pub fn disassembly(&self, const_texts: &Vec<String>) -> (r: Vec<String>)
        requires
            const_texts@.len() == self.consts@.len(),
        ensures
            r@.map_values(|l: String| l@) == listing(*self, const_texts@.map_values(|t: String| t@)),
    {
        let ghost texts = const_texts@.map_values(|t: String| t@);
        let ghost want = listing(*self, texts);
        let mut out: Vec<String> = Vec::new();
        let mut head = "=== ".to_owned();
        head.append(self.name.as_str());
        head.append(" ===");
        out.push(head);
        let mut count = "constants (".to_owned();
        count.append(usize_text(self.consts.len()).as_str());
        count.append("):");
        out.push(count);
        proof {
            reveal_strlit("=== ");
            reveal_strlit(" ===");
            reveal_strlit("constants (");
            reveal_strlit("):");
        }
        let mut i: usize = 0;
        while i < const_texts.len()
            invariant
                i <= const_texts@.len(),
                texts == const_texts@.map_values(|t: String| t@),
                want == listing(*self, texts),
                out@.len() == 2 + i,
                forall|j: int| 0 <= j < out@.len() ==> #[trigger] out@[j]@ == want[j],
            decreases const_texts.len() - i,
        {
            let mut l = "  [".to_owned();
            push_padded(&mut l, &usize_text(i), 3);
            l.append("] ");
            l.append(const_texts[i].as_str());
            proof {
                reveal_strlit("  [");
                reveal_strlit("] ");
                assert(l@ =~= const_line(i as nat, texts[i as int]));
                assert(want[2 + i] == const_line(i as nat, texts[i as int]));
            }
            out.push(l);
            i = i + 1;
        }
        let mut code_head = "code (".to_owned();
        code_head.append(usize_text(self.code.len()).as_str());
        code_head.append(" instructions):");
        proof {
            reveal_strlit("code (");
            reveal_strlit(" instructions):");
            assert(want[2 + i] == code_head@);
        }
        out.push(code_head);
        let ghost base = i + 3;
        let ghost pre = seq!["=== "@ + self.name@ + " ==="@, "constants ("@ + nat_text(self.consts@.len()) + "):"@]
            + Seq::new(texts.len(), |j: int| const_line(j as nat, texts[j]))
            + seq!["code ("@ + nat_text(self.code@.len()) + " instructions):"@];
        let ghost d = Seq::new(
            self.code@.len(),
            |j: int| code_line(j as nat, line_at(self.lines@, j), self.code@[j]),
        );
        proof {
            assert(want == pre + d + seq![Seq::<char>::empty()]);
            assert(pre.len() == base);
        }
        let mut k: usize = 0;
        while k < self.code.len()
            invariant
                base == const_texts@.len() + 3,
                pre.len() == base,
                d.len() == self.code@.len(),
                forall|j: int| 0 <= j < d.len() ==> #[trigger] d[j] == code_line(j as nat, line_at(self.lines@, j), self.code@[j]),
                want == pre + d + seq![Seq::<char>::empty()],
                k <= self.code@.len(),
                want == listing(*self, texts),
                out@.len() == base + k,
                forall|j: int| 0 <= j < out@.len() ==> #[trigger] out@[j]@ == want[j],
            decreases self.code.len() - k,
        {
            let line: u32 = if k < self.lines.len() {
                self.lines[k]
            } else {
                0
            };
            let mut l = "  ".to_owned();
            push_padded(&mut l, &usize_text(k), 4);
            l.append("  line ");
            push_padded(&mut l, &usize_text(line as usize), 3);
            l.append("  ");
            l.append(self.code[k].to_string().as_str());
            proof {
                reveal_strlit("  ");
                reveal_strlit("  line ");
                assert(l@ =~= code_line(k as nat, line_at(self.lines@, k as int), self.code@[k as int]));
                assert(want[base + k] == d[k as int]);
            }
            out.push(l);
            k = k + 1;
        }
        out.push(String::new());
        proof {
            assert(out@.map_values(|l: String| l@) =~= want);
        }
        out
    }

    /// Current instruction count (= next instruction index).
    pub fn len(&self) -> (r: usize)
        ensures
            r == self.code@.len(),
    {
        self.code.len()
    }

    pub fn is_empty(&self) -> (r: bool)
        ensures
            r == (self.code@.len() == 0),
    {
        self.code.is_empty()
    }
}

/// The first string constant with the text `s` is a string constant with that text.
pub proof fn lemma_find_str_is_str(consts: Seq<Value>, s: Seq<char>)
    ensures
        find_str(consts, s) matches Some(i) ==> 0 <= i < consts.len() && (consts[i] matches Value::Str(
            c,
        ) && c@ == s),
    decreases consts.len(),
{
    if consts.len() > 0 {
        lemma_find_str_is_str(consts.drop_last(), s);
    }
}

/// Adding a value to the pool keeps what it held, and the index given holds what was
/// added: the value itself, or for a string, a string with the same text.
pub proof fn law_add_then_read(consts: Seq<Value>, val: Value)
    ensures
        ({
            let (c, i) = pool_add(consts, val);
            &&& 0 <= i < c.len()
            &&& prefix_of(consts, c)
            &&& match val {
                Value::Str(s) => c[i] matches Value::Str(t) && t@ == s@,
                _ => c[i] == val,
            }
        }),
{
    if let Value::Str(s) = val {
        lemma_find_str_is_str(consts, s@);
    }
}

/// Adding a string a second time leaves the pool as it is and gives the same index as
/// the first time.
pub proof fn law_add_str_twice(consts: Seq<Value>, val: Value)
    requires
        val is Str,
    ensures
        ({
            let (c1, i1) = pool_add(consts, val);
            let (c2, i2) = pool_add(c1, val);
            c2 == c1 && i2 == i1
        }),
{
    if let Value::Str(s) = val {
        let (c1, i1) = pool_add(consts, val);
        if find_str(consts, s@) is None {
            assert(c1.drop_last() =~= consts);
        }
    }
}

/// When the first `n` constants hold a string `s` at `n - 1`, the first occurrence of `s`
/// is found among them, and so among all the constants.
proof fn lemma_find_str_prefix(consts: Seq<Value>, s: Seq<char>, n: int)
    requires
        0 < n <= consts.len(),
        find_str(consts.subrange(0, n - 1), s) is None,
        consts[n - 1] matches Value::Str(c) && c@ == s,
    ensures
        find_str(consts, s) == Some(n - 1),
    decreases consts.len(),
{
    if n < consts.len() {
        assert(consts.drop_last().subrange(0, n - 1) =~= consts.subrange(0, n - 1));
        lemma_find_str_prefix(consts.drop_last(), s, n);
    } else {
        assert(consts.drop_last() =~= consts.subrange(0, n - 1));
    }
}

} // verus!
