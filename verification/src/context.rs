//! The in-memory record of everything the wrapped shell printed.

use vstd::prelude::*;

verus! {

/// Holds the raw bytes the shell wrote to the terminal, in arrival order.
pub struct ShellContext {
    raw_context: Vec<u8>,
}

impl View for ShellContext {
    type V = Seq<u8>;

    closed spec fn view(&self) -> Seq<u8> {
        self.raw_context@
    }
}

/// The recorded bytes after `s` has been recorded on top of `ctx`.
pub open spec fn spec_record(ctx: Seq<u8>, s: Seq<u8>) -> Seq<u8> {
    ctx + s
}

impl ShellContext {
    /// An empty record.
    pub fn new() -> (res: ShellContext)
        ensures
            res@ == Seq::<u8>::empty(),
    {
        ShellContext { raw_context: Vec::new() }
    }

    /// Appends `s` to the record.
    pub fn push(&mut self, s: &[u8])
        ensures
            final(self)@ == spec_record(old(self)@, s@),
            final(self)@ == old(self)@ + s@,
    {
        self.raw_context.extend_from_slice(s);
        assert(self.raw_context@ =~= old(self)@ + s@);
    }

    /// A copy of everything recorded so far.
    pub fn get_raw_context(&self) -> (res: Vec<u8>)
        ensures
            res@ == self@,
    {
        self.raw_context.clone()
    }
}

/// Recording a byte stream in two pieces leaves the same record as recording
/// it in one piece: how the shell's output was cut into chunks does not
/// matter to the context.
pub proof fn law_record_is_chunk_independent(ctx: Seq<u8>, a: Seq<u8>, b: Seq<u8>)
    ensures
        spec_record(spec_record(ctx, a), b) == spec_record(ctx, a + b),
{
    assert(ctx + a + b =~= ctx + (a + b));
}

/// Recording only ever adds: after recording `s`, the record is as long as
/// the old record and `s` together, starts with every byte recorded before,
/// in place, and ends with `s`. Nothing recorded earlier is ever dropped.
pub proof fn law_record_keeps_every_byte(ctx: Seq<u8>, s: Seq<u8>)
    ensures
        spec_record(ctx, s).len() == ctx.len() + s.len(),
        spec_record(ctx, s).subrange(0, ctx.len() as int) == ctx,
        spec_record(ctx, s).subrange(ctx.len() as int, (ctx.len() + s.len()) as int) == s,
{
    assert((ctx + s).subrange(0, ctx.len() as int) =~= ctx);
    assert((ctx + s).subrange(ctx.len() as int, (ctx.len() + s.len()) as int) =~= s);
}

} // verus!
