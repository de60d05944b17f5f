//! The converter: an outside program that reads one image and writes it in
//! the target format. It is started with fixed settings, one thread and the
//! slowest, most thorough speed, and judged by its exit status alone.

use crate::bytes::copy;
use crate::order::contents;
use vstd::prelude::*;

verus! {

/// The name of the program: `avifenc`.
pub open spec fn program() -> Seq<u8> {
    seq![97u8, 118u8, 105u8, 102u8, 101u8, 110u8, 99u8]
}

/// The command line for one conversion: the program, `--jobs 1 --speed 0`,
/// the input path, the output path.
pub open spec fn command_line(input: Seq<u8>, output: Seq<u8>) -> Seq<Seq<u8>> {
    seq![
        program(),
        seq![45u8, 45u8, 106u8, 111u8, 98u8, 115u8],
        seq![49u8],
        seq![45u8, 45u8, 115u8, 112u8, 101u8, 101u8, 100u8],
        seq![48u8],
        input,
        output,
    ]
}

/// The command line that converts `input` into `output`, the program first.
pub fn converter_command(input: &[u8], output: &[u8]) -> (words: Vec<Vec<u8>>)
    ensures
        contents(words@) == command_line(input@, output@),
{
    let program: Vec<u8> = vec![97u8, 118u8, 105u8, 102u8, 101u8, 110u8, 99u8];
    let jobs: Vec<u8> = vec![45u8, 45u8, 106u8, 111u8, 98u8, 115u8];
    let one: Vec<u8> = vec![49u8];
    let speed: Vec<u8> = vec![45u8, 45u8, 115u8, 112u8, 101u8, 101u8, 100u8];
    let zero: Vec<u8> = vec![48u8];
    let mut words: Vec<Vec<u8>> = Vec::new();
    words.push(program);
    words.push(jobs);
    words.push(one);
    words.push(speed);
    words.push(zero);
    words.push(copy(input));
    words.push(copy(output));
    proof {
        let got = contents(words@);
        let want = command_line(input@, output@);
        assert(got.len() == want.len());
        assert(got[0] =~= want[0]);
        assert(got[1] =~= want[1]);
        assert(got[2] =~= want[2]);
        assert(got[3] =~= want[3]);
        assert(got[4] =~= want[4]);
        assert(got[5] =~= want[5]);
        assert(got[6] =~= want[6]);
        assert(got =~= want);
    }
    words
}

} // verus!
