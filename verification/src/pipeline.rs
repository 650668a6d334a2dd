use vstd::prelude::*;
use crate::compose::{all_same_res, all_wf, create_spritesheet, rows_needed, sheet_model};
use crate::error::SpritesheetErr;
use crate::filter::{dominant, filter_images, keep_res, lemma_filter_dominant};
use crate::img::{Image, ImageModel, views};
use crate::policy::{calculate_row_count, isqrt, lemma_isqrt_bounds};

verus! {

/// The row count the pipeline composes with: the caller's manual choice, or
/// the automatic near-square policy over the filtered count; either way
/// clamped to at least one.
pub open spec fn chosen_row_count(filtered: nat, manual: Option<u32>) -> nat {
    match manual {
        Some(rc) => if rc == 0 {
            1nat
        } else {
            rc as nat
        },
        None => if isqrt(filtered) == 0 {
            1nat
        } else {
            isqrt(filtered)
        },
    }
}

/// The canvas of the composed sheet fits the machine: cell grid within
/// `u32` dimensions, byte count within `usize`.
pub open spec fn canvas_fits(ms: Seq<ImageModel>, manual: Option<u32>) -> bool {
    ms.len() >= 1 ==> {
        let kept = keep_res(ms, dominant(ms));
        let rc = chosen_row_count(kept.len(), manual);
        let rows = rows_needed(kept.len(), rc);
        &&& rc * kept[0].width <= u32::MAX
        &&& rows * kept[0].height <= u32::MAX
        &&& 4 * ((rc * kept[0].width) * (rows * kept[0].height)) <= usize::MAX
    }
}

/// The computing pipeline after decode: filter the images to the dominant
/// resolution, choose the row count, compose the spritesheet. Fails exactly
/// on an empty image list.
pub fn build_spritesheet(images: Vec<Image>, manual_row_count: Option<u32>) -> (r: Result<
    Image,
    SpritesheetErr,
>)
    requires
        all_wf(views(images@)),
        canvas_fits(views(images@), manual_row_count),
    ensures
        match r {
            Ok(sheet) => images@.len() >= 1 && sheet@ == sheet_model(
                keep_res(views(images@), dominant(views(images@))),
                chosen_row_count(
                    keep_res(views(images@), dominant(views(images@))).len(),
                    manual_row_count,
                ),
            ),
            Err(e) => e == SpritesheetErr::FilterImages && images@.len() == 0,
        },
{
    let ghost ms = views(images@);
    let filtered = match filter_images(images) {
        Ok(v) => v,
        Err(e) => {
            return Err(e);
        },
    };
    let ghost kept = keep_res(ms, dominant(ms));
    proof {
        lemma_filter_dominant(ms);
        assert(views(filtered@) == kept);
        assert(filtered@.len() == kept.len());
        assert(kept.len() >= 1);
        assert forall|i: int| 0 <= i < kept.len() implies (#[trigger] kept[i]).wf() by {
            assert(ms.contains(kept[i]));
            let l = choose|l: int| 0 <= l < ms.len() && ms[l] == kept[i];
            assert(ms[l].wf());
        }
        assert(all_wf(views(filtered@)));
        assert(all_same_res(views(filtered@)));
    }
    let rc: u32 = match manual_row_count {
        Some(c) => if c == 0 {
            1
        } else {
            c
        },
        None => calculate_row_count(filtered.len()),
    };
    proof {
        if manual_row_count is None {
            lemma_isqrt_bounds(kept.len());
            if isqrt(kept.len()) == 0 {
                assert(kept.len() < (isqrt(kept.len()) + 1) * (isqrt(kept.len()) + 1));
            }
        }
        assert(rc as nat == chosen_row_count(kept.len(), manual_row_count));
        assert(rc >= 1);
    }
    let sheet = create_spritesheet(rc, filtered);
    Ok(sheet)
}

} // verus!
