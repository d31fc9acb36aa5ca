//! The pure parts of a run: how the rasterizer is invoked, which executable
//! names are tried, where the output goes, and what is reported.
use vstd::prelude::*;

verus! {

/// The rasterizer's argument vector: the bounding-box device, batch mode
/// without pauses, a `save`/`pop` pair, then the input file.
pub fn ghostscript_args<'a>(pdf_file: &'a str) -> (r: Vec<&'a str>)
    ensures
        r@ == seq![
            "-dSAFER",
            "-sDEVICE=bbox",
            "-dBATCH",
            "-dNOPAUSE",
            "-c",
            "save",
            "pop",
            "-f",
            pdf_file,
        ],
{
    vec!["-dSAFER", "-sDEVICE=bbox", "-dBATCH", "-dNOPAUSE", "-c", "save", "pop", "-f", pdf_file]
}

/// The executable names to try for the rasterizer, in order.
pub fn ghostscript_candidates(windows: bool) -> (r: Vec<&'static str>)
    ensures
        windows ==> r@ == seq!["gswin64c", "gswin32c", "gs"],
        !windows ==> r@ == seq!["gs", "gsc", "gswin64c", "gswin32c"],
{
    if windows {
        vec!["gswin64c", "gswin32c", "gs"]
    } else {
        vec!["gs", "gsc", "gswin64c", "gswin32c"]
    }
}

pub open spec fn pdf_extension() -> Seq<u8> {
    seq![46u8, 112, 100, 102]
}

pub open spec fn crop_suffix() -> Seq<u8> {
    seq![45u8, 99, 114, 111, 112, 46, 112, 100, 102]
}

/// `path` without a trailing `.pdf`, if it has one.
pub open spec fn stem(path: Seq<u8>) -> Seq<u8> {
    if path.len() >= 4 && path.subrange(path.len() - 4, path.len() as int) == pdf_extension() {
        path.subrange(0, path.len() - 4)
    } else {
        path
    }
}

/// The decimal digits of `n`, most significant first.
pub open spec fn decimal_digits(n: nat) -> Seq<u8>
    decreases n,
{
    if n < 10 {
        seq![(48 + n) as u8]
    } else {
        decimal_digits(n / 10).push((48 + n % 10) as u8)
    }
}

/// "==> N page written on `OUT'." with "pages" for any count but one.
pub open spec fn report_text(pages: nat, output: Seq<u8>) -> Seq<u8> {
    let head = seq![61u8, 61, 62, 32];
    let page_word = seq![32u8, 112, 97, 103, 101];
    let plural = if pages == 1 {
        Seq::<u8>::empty()
    } else {
        seq![115u8]
    };
    let written_on = seq![32u8, 119, 114, 105, 116, 116, 101, 110, 32, 111, 110, 32, 96];
    let tail = seq![39u8, 46];
    head + decimal_digits(pages) + page_word + plural + written_on + output + tail
}

fn push_all(out: &mut Vec<u8>, s: &[u8])
    ensures
        final(out)@ == old(out)@ + s@,
{
    let mut i: usize = 0;
    while i < s.len()
        invariant
            i <= s@.len(),
            out@ == old(out)@ + s@.subrange(0, i as int),
        decreases s@.len() - i,
    {
        out.push(s[i]);
        i = i + 1;
        proof {
            assert(out@ =~= old(out)@ + s@.subrange(0, i as int));
        }
    }
    proof {
        assert(s@.subrange(0, i as int) =~= s@);
    }
}

fn push_decimal(out: &mut Vec<u8>, n: usize)
    ensures
        final(out)@ == old(out)@ + decimal_digits(n as nat),
    decreases n,
{
    if n >= 10 {
        push_decimal(out, n / 10);
    }
    out.push((48 + n % 10) as u8);
    proof {
        assert(out@ =~= old(out)@ + decimal_digits(n as nat));
    }
}

/// `path` with `.pdf` appended.
pub fn with_pdf_extension(path: &[u8]) -> (r: Vec<u8>)
    ensures
        r@ == path@ + pdf_extension(),
{
    let ext: [u8; 4] = [46, 112, 100, 102];
    let mut r: Vec<u8> = Vec::new();
    push_all(&mut r, path);
    push_all(&mut r, ext.as_slice());
    proof {
        assert(r@ =~= path@ + pdf_extension());
    }
    r
}

/// The output path used when none is given: the input path with its `.pdf`
/// extension, if any, replaced by `-crop.pdf`.
pub fn default_output_path(input: &[u8]) -> (r: Vec<u8>)
    ensures
        r@ == stem(input@) + crop_suffix(),
{
    let ext: [u8; 4] = [46, 112, 100, 102];
    let suffix: [u8; 9] = [45, 99, 114, 111, 112, 46, 112, 100, 102];
    let n = input.len();
    let mut keep = n;
    if n >= 4 && input[n - 4] == ext[0] && input[n - 3] == ext[1] && input[n - 2] == ext[2]
        && input[n - 1] == ext[3] {
        keep = n - 4;
        proof {
            assert(input@.subrange(n - 4, n as int) =~= pdf_extension());
        }
    } else {
        proof {
            if n >= 4 {
                assert(input@.subrange(n - 4, n as int)[0] == input@[n - 4]);
                assert(input@.subrange(n - 4, n as int)[1] == input@[n - 3]);
                assert(input@.subrange(n - 4, n as int)[2] == input@[n - 2]);
                assert(input@.subrange(n - 4, n as int)[3] == input@[n - 1]);
            }
        }
    }
    let mut r: Vec<u8> = Vec::new();
    let mut i: usize = 0;
    while i < keep
        invariant
            keep <= n == input@.len(),
            i <= keep,
            r@ == input@.subrange(0, i as int),
        decreases keep - i,
    {
        r.push(input[i]);
        i = i + 1;
        proof {
            assert(r@ =~= input@.subrange(0, i as int));
        }
    }
    push_all(&mut r, suffix.as_slice());
    proof {
        assert(suffix@ =~= crop_suffix());
        if keep == n {
            assert(input@.subrange(0, n as int) =~= input@);
        }
    }
    r
}

/// The line that reports a finished run: the page count, the word "page"
/// (plural for any count but one) and the output path.
pub fn pages_written_report(pages: usize, output: &[u8]) -> (r: Vec<u8>)
    ensures
        r@ == report_text(pages as nat, output@),
{
    let head: [u8; 4] = [61, 61, 62, 32];
    let page_word: [u8; 5] = [32, 112, 97, 103, 101];
    let written_on: [u8; 13] = [32, 119, 114, 105, 116, 116, 101, 110, 32, 111, 110, 32, 96];
    let tail: [u8; 2] = [39, 46];
    let mut r: Vec<u8> = Vec::new();
    push_all(&mut r, head.as_slice());
    push_decimal(&mut r, pages);
    push_all(&mut r, page_word.as_slice());
    if pages != 1 {
        r.push(115);
    }
    let ghost before_tail = r@;
    push_all(&mut r, written_on.as_slice());
    push_all(&mut r, output);
    push_all(&mut r, tail.as_slice());
    proof {
        assert(head@ =~= seq![61u8, 61, 62, 32]);
        assert(page_word@ =~= seq![32u8, 112, 97, 103, 101]);
        assert(written_on@ =~= seq![32u8, 119, 114, 105, 116, 116, 101, 110, 32, 111, 110, 32, 96]);
        assert(tail@ =~= seq![39u8, 46]);
        assert(r@ =~= report_text(pages as nat, output@));
    }
    r
}

} // verus!
