//! The commands that upload a texture and build its mip chain: copy the
//! pixels into level 0, then blit each level into the next, halving its size,
//! moving each level to the sampled layout once it has been read.
use vstd::prelude::*;
use crate::render_graph::access::ImageLayout;
use crate::render_graph::barrier::upload_masks;

verus! {

/// One command of a texture upload.
#[derive(Debug, Clone, Copy, PartialEq, Eq, Structural)]
pub enum UploadStep {
    /// Move `level_count` mip levels from `base_mip` on between layouts.
    Transition { from: ImageLayout, to: ImageLayout, base_mip: u32, level_count: u32 },
    /// Copy the staged pixels into mip level 0.
    CopyToLevel0,
    /// Blit level `src_level`, of the given size, into level `dst_level` of the given size.
    Blit { src_level: u32, src_width: u32, src_height: u32, dst_level: u32, dst_width: u32, dst_height: u32 },
}

/// The running size along one axis before blitting from level `l`: halved
/// after each level while above one.
pub open spec fn mip_size(x: u32, l: nat) -> u32
    decreases l,
{
    if l == 0 {
        x
    } else {
        let prev = mip_size(x, (l - 1) as nat);
        if prev > 1 {
            prev / 2
        } else {
            prev
        }
    }
}

/// The size along one axis of the level a blit from a level of size `x` writes.
pub open spec fn blit_size(x: u32) -> u32 {
    if x > 1 {
        x / 2
    } else {
        1
    }
}

/// The three commands that build level `s + 1` from level `s`.
pub open spec fn level_steps(w: u32, h: u32, s: nat) -> Seq<UploadStep> {
    seq![
        UploadStep::Transition {
            from: ImageLayout::TransferDstOptimal,
            to: ImageLayout::TransferSrcOptimal,
            base_mip: s as u32,
            level_count: 1,
        },
        UploadStep::Blit {
            src_level: s as u32,
            src_width: mip_size(w, s),
            src_height: mip_size(h, s),
            dst_level: (s + 1) as u32,
            dst_width: blit_size(mip_size(w, s)),
            dst_height: blit_size(mip_size(h, s)),
        },
        UploadStep::Transition {
            from: ImageLayout::TransferSrcOptimal,
            to: ImageLayout::ShaderReadOnlyOptimal,
            base_mip: s as u32,
            level_count: 1,
        },
    ]
}

/// The commands that build levels `1..=n` from level 0.
pub open spec fn blit_steps(w: u32, h: u32, n: nat) -> Seq<UploadStep>
    decreases n,
{
    if n == 0 {
        seq![]
    } else {
        blit_steps(w, h, (n - 1) as nat) + level_steps(w, h, (n - 1) as nat)
    }
}

/// Every command of the upload of a `w` by `h` texture with `levels` mip levels.
pub open spec fn upload_steps(w: u32, h: u32, levels: u32) -> Seq<UploadStep> {
    seq![
        UploadStep::Transition {
            from: ImageLayout::Undefined,
            to: ImageLayout::TransferDstOptimal,
            base_mip: 0,
            level_count: levels,
        },
        UploadStep::CopyToLevel0,
    ] + blit_steps(w, h, (levels - 1) as nat) + seq![
        UploadStep::Transition {
            from: ImageLayout::TransferDstOptimal,
            to: ImageLayout::ShaderReadOnlyOptimal,
            base_mip: (levels - 1) as u32,
            level_count: 1,
        },
    ]
}

/// The commands that upload a `width` by `height` texture with `mip_levels`
/// levels (at least one) and build its mip chain.
pub fn texture_upload_steps(width: u32, height: u32, mip_levels: u32) -> (steps: Vec<UploadStep>)
    requires
        mip_levels >= 1,
    ensures
        steps@ == upload_steps(width, height, mip_levels),
{
    let mut steps: Vec<UploadStep> = Vec::new();
    steps.push(
        UploadStep::Transition {
            from: ImageLayout::Undefined,
            to: ImageLayout::TransferDstOptimal,
            base_mip: 0,
            level_count: mip_levels,
        },
    );
    steps.push(UploadStep::CopyToLevel0);
    let ghost head = steps@;
    let mut mip_w = width;
    let mut mip_h = height;
    let mut level: u32 = 1;
    while level < mip_levels
        invariant
            1 <= level <= mip_levels,
            mip_w == mip_size(width, (level - 1) as nat),
            mip_h == mip_size(height, (level - 1) as nat),
            steps@ == head + blit_steps(width, height, (level - 1) as nat),
        decreases mip_levels - level,
    {
        let ghost s = (level - 1) as nat;
        steps.push(
            UploadStep::Transition {
                from: ImageLayout::TransferDstOptimal,
                to: ImageLayout::TransferSrcOptimal,
                base_mip: level - 1,
                level_count: 1,
            },
        );
        let dst_w = if mip_w > 1 {
            mip_w / 2
        } else {
            1
        };
        let dst_h = if mip_h > 1 {
            mip_h / 2
        } else {
            1
        };
        steps.push(
            UploadStep::Blit {
                src_level: level - 1,
                src_width: mip_w,
                src_height: mip_h,
                dst_level: level,
                dst_width: dst_w,
                dst_height: dst_h,
            },
        );
        steps.push(
            UploadStep::Transition {
                from: ImageLayout::TransferSrcOptimal,
                to: ImageLayout::ShaderReadOnlyOptimal,
                base_mip: level - 1,
                level_count: 1,
            },
        );
        if mip_w > 1 {
            mip_w = mip_w / 2;
        }
        if mip_h > 1 {
            mip_h = mip_h / 2;
        }
        proof {
            assert(blit_steps(width, height, s + 1) == blit_steps(width, height, s) + level_steps(width, height, s));
            assert(steps@ == head + blit_steps(width, height, s + 1));
        }
        level = level + 1;
    }
    steps.push(
        UploadStep::Transition {
            from: ImageLayout::TransferDstOptimal,
            to: ImageLayout::ShaderReadOnlyOptimal,
            base_mip: mip_levels - 1,
            level_count: 1,
        },
    );
    steps
}

/// The layouts of the mip levels after one upload command, or `None` when
/// the command does not apply: a transition must be one the upload table
/// supports and find every level it moves in its source layout; the copy
/// writes level 0 as a transfer destination; a blit reads a transfer source
/// and writes a transfer destination.
pub open spec fn upload_effect(cur: Seq<ImageLayout>, step: UploadStep) -> Option<Seq<ImageLayout>> {
    match step {
        UploadStep::Transition { from, to, base_mip, level_count } => {
            if upload_masks(from, to) is Some && base_mip + level_count <= cur.len() && forall|l: int|
                base_mip <= l < base_mip + level_count ==> cur[l] == from {
                Some(
                    Seq::new(
                        cur.len(),
                        |l: int|
                            if base_mip <= l < base_mip + level_count {
                                to
                            } else {
                                cur[l]
                            },
                    ),
                )
            } else {
                None
            }
        },
        UploadStep::CopyToLevel0 => {
            if cur.len() > 0 && cur[0] == ImageLayout::TransferDstOptimal {
                Some(cur)
            } else {
                None
            }
        },
        UploadStep::Blit { src_level, dst_level, .. } => {
            if src_level < cur.len() && dst_level < cur.len() && cur[src_level as int]
                == ImageLayout::TransferSrcOptimal && cur[dst_level as int] == ImageLayout::TransferDstOptimal {
                Some(cur)
            } else {
                None
            }
        },
    }
}

/// The layouts of the mip levels after running `steps` from `ls`, or `None`
/// when some command does not apply.
pub open spec fn run_upload(ls: Seq<ImageLayout>, steps: Seq<UploadStep>) -> Option<Seq<ImageLayout>>
    decreases steps.len(),
{
    if steps.len() == 0 {
        Some(ls)
    } else {
        match run_upload(ls, steps.drop_last()) {
            Some(cur) => upload_effect(cur, steps.last()),
            None => None,
        }
    }
}

/// Layouts while the chain is built: levels below `k` are sampled, the
/// others still transfer destinations.
spec fn chain_state(n: nat, k: nat) -> Seq<ImageLayout> {
    Seq::new(
        n,
        |l: int|
            if l < k {
                ImageLayout::ShaderReadOnlyOptimal
            } else {
                ImageLayout::TransferDstOptimal
            },
    )
}

proof fn lemma_run_concat(ls: Seq<ImageLayout>, a: Seq<UploadStep>, b: Seq<UploadStep>)
    ensures
        run_upload(ls, a + b) == match run_upload(ls, a) {
            Some(m) => run_upload(m, b),
            None => None,
        },
    decreases b.len(),
{
    if b.len() == 0 {
        assert(a + b == a);
    } else {
        lemma_run_concat(ls, a, b.drop_last());
        assert((a + b).drop_last() == a + b.drop_last());
        assert((a + b).last() == b.last());
        if run_upload(ls, a) is None {
            lemma_run_none(ls, a, b);
        }
    }
}

proof fn lemma_run_none(ls: Seq<ImageLayout>, a: Seq<UploadStep>, b: Seq<UploadStep>)
    requires
        run_upload(ls, a) is None,
    ensures
        run_upload(ls, a + b) is None,
    decreases b.len(),
{
    if b.len() == 0 {
        assert(a + b == a);
    } else {
        lemma_run_none(ls, a, b.drop_last());
        assert((a + b).drop_last() == a + b.drop_last());
    }
}

proof fn lemma_run_one(ls: Seq<ImageLayout>, x: UploadStep)
    ensures
        run_upload(ls, seq![x]) == upload_effect(ls, x),
{
    assert(seq![x].drop_last() == Seq::<UploadStep>::empty());
    assert(run_upload(ls, Seq::<UploadStep>::empty()) == Some(ls));
    assert(seq![x].last() == x);
}

proof fn lemma_level_steps(w: u32, h: u32, n: nat, k: nat)
    requires
        k + 1 < n,
        n <= u32::MAX,
    ensures
        run_upload(chain_state(n, k), level_steps(w, h, k)) == Some(chain_state(n, k + 1)),
{
    let steps = level_steps(w, h, k);
    let t1 = steps[0];
    let t2 = steps[1];
    let t3 = steps[2];
    assert(steps == seq![t1] + seq![t2] + seq![t3]);
    let s0 = chain_state(n, k);
    let s1 = Seq::new(
        n,
        |l: int|
            if l < k {
                ImageLayout::ShaderReadOnlyOptimal
            } else if l == k {
                ImageLayout::TransferSrcOptimal
            } else {
                ImageLayout::TransferDstOptimal
            },
    );
    lemma_run_one(s0, t1);
    assert(upload_effect(s0, t1) == Some(s1)) by {
        assert(upload_masks(ImageLayout::TransferDstOptimal, ImageLayout::TransferSrcOptimal) is Some);
        let r = Seq::new(
            s0.len(),
            |l: int|
                if k <= l < k + 1 {
                    ImageLayout::TransferSrcOptimal
                } else {
                    s0[l]
                },
        );
        assert(r =~= s1);
    }
    lemma_run_one(s1, t2);
    assert(upload_effect(s1, t2) == Some(s1));
    lemma_run_one(s1, t3);
    assert(upload_effect(s1, t3) == Some(chain_state(n, k + 1))) by {
        assert(upload_masks(ImageLayout::TransferSrcOptimal, ImageLayout::ShaderReadOnlyOptimal) is Some);
        let r = Seq::new(
            s1.len(),
            |l: int|
                if k <= l < k + 1 {
                    ImageLayout::ShaderReadOnlyOptimal
                } else {
                    s1[l]
                },
        );
        assert(r =~= chain_state(n, k + 1));
    }
    lemma_run_concat(s0, seq![t1], seq![t2]);
    lemma_run_concat(s0, seq![t1] + seq![t2], seq![t3]);
}

proof fn lemma_blit_steps(w: u32, h: u32, n: nat, k: nat)
    requires
        k + 1 <= n,
        n <= u32::MAX,
    ensures
        run_upload(chain_state(n, 0), blit_steps(w, h, k)) == Some(chain_state(n, k)),
    decreases k,
{
    if k > 0 {
        lemma_blit_steps(w, h, n, (k - 1) as nat);
        lemma_level_steps(w, h, n, (k - 1) as nat);
        lemma_run_concat(chain_state(n, 0), blit_steps(w, h, (k - 1) as nat), level_steps(w, h, (k - 1) as nat));
    }
}

/// Uploading a texture with at least one mip level runs every command in a
/// layout it applies to, and leaves every mip level in the sampled layout.
pub proof fn law_upload_leaves_levels_sampled(w: u32, h: u32, levels: u32)
    requires
        levels >= 1,
    ensures
        run_upload(Seq::new(levels as nat, |l: int| ImageLayout::Undefined), upload_steps(w, h, levels))
            == Some(Seq::new(levels as nat, |l: int| ImageLayout::ShaderReadOnlyOptimal)),
{
    let n = levels as nat;
    let start = Seq::new(n, |l: int| ImageLayout::Undefined);
    let first = upload_steps(w, h, levels)[0];
    let head = seq![
        UploadStep::Transition {
            from: ImageLayout::Undefined,
            to: ImageLayout::TransferDstOptimal,
            base_mip: 0,
            level_count: levels,
        },
        UploadStep::CopyToLevel0,
    ];
    let last = seq![
        UploadStep::Transition {
            from: ImageLayout::TransferDstOptimal,
            to: ImageLayout::ShaderReadOnlyOptimal,
            base_mip: (levels - 1) as u32,
            level_count: 1,
        },
    ];
    let mid = blit_steps(w, h, (levels - 1) as nat);
    assert(upload_steps(w, h, levels) == head + mid + last);
    // The first transition moves every level to a transfer destination.
    assert(head == seq![head[0]] + seq![head[1]]);
    lemma_run_one(start, head[0]);
    assert(upload_masks(ImageLayout::Undefined, ImageLayout::TransferDstOptimal) is Some);
    let dst = Seq::new(
        start.len(),
        |l: int|
            if 0 <= l < 0 + levels {
                ImageLayout::TransferDstOptimal
            } else {
                start[l]
            },
    );
    assert(dst =~= chain_state(n, 0));
    lemma_run_one(chain_state(n, 0), head[1]);
    lemma_run_concat(start, seq![head[0]], seq![head[1]]);
    assert(run_upload(start, head) == Some(chain_state(n, 0)));
    lemma_blit_steps(w, h, n, (levels - 1) as nat);
    lemma_run_concat(start, head, mid);
    let before_last = chain_state(n, (levels - 1) as nat);
    lemma_run_one(before_last, last[0]);
    assert(upload_masks(ImageLayout::TransferDstOptimal, ImageLayout::ShaderReadOnlyOptimal) is Some);
    let fin = Seq::new(
        before_last.len(),
        |l: int|
            if levels - 1 <= l < levels - 1 + 1 {
                ImageLayout::ShaderReadOnlyOptimal
            } else {
                before_last[l]
            },
    );
    assert(fin =~= Seq::new(n, |l: int| ImageLayout::ShaderReadOnlyOptimal));
    lemma_run_concat(start, head + mid, last);
}

} // verus!
