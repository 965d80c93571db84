//! Suffix arrays, Burrows-Wheeler transforms and longest common prefix arrays
//! by induced sorting, with machine-checked contracts.

pub mod fold;
pub mod types;
pub mod marks;
pub mod partial_8u;
pub mod partial_32s;
pub mod gather;
pub mod buckets;
pub mod radix;
pub mod blocks;
pub mod renumber;
pub mod span;
pub mod place;
pub mod gather_omp;
pub mod compact;
pub mod final_scan;
pub mod order;
pub mod kinds;
pub mod bounds;
pub mod placement;
pub mod substrings;
pub mod partial_induction;
pub mod scattering;
pub mod reduction;
pub mod lengths;
pub mod naming;
pub mod name_order;
pub mod compaction;
pub mod restoring;
pub mod rebuild;
pub mod one_bucket;
pub mod spreading;
pub mod recount;
pub mod ordering;
pub mod listing;
pub mod two_buckets;
pub mod tallies;
pub mod shares;
pub mod desks;
pub mod walks;
pub mod sweeps;
pub mod sweeps_32s;
pub mod effects;
pub mod census;
pub mod caching;
pub mod sharing;
pub mod reading;
pub mod delegating;
pub mod walking;
pub mod apart;
pub mod meaning;
pub mod ties;
pub mod lanes;
pub mod lane_left;
pub mod lane_right;
pub mod lane_turn;
pub mod lane_names;
pub mod lane_restoring;
pub mod byte_lanes;
pub mod fields;
pub mod segments;
pub mod byte_scans;
pub mod byte_sort;
pub mod six_lanes;
pub mod six_scans;
pub mod six_radix;
pub mod mark_names;
pub mod six_sort;
pub mod four_lists;
pub mod four_left;
pub mod four_right;
pub mod four_sort;
pub mod integer_sort;
pub mod induce;
pub mod induction;
pub mod induction_8u;
pub mod sampling;
pub mod separators;
pub mod separated_radix;
pub mod separated_scans;
pub mod separated_order;
pub mod separated_sort;
pub mod main_32s;
pub mod bytes;
pub mod main_8u;
pub mod api;
pub mod plcp;
pub mod laws;
pub mod rows;
pub mod unbwt_tables;
pub mod unbwt_parallel;
pub mod unbwt;
pub mod unbwt_api;
pub mod counts;
pub mod context;
pub mod block_32s;
pub mod block_8u;
pub mod orders;

pub use types::{
    ALPHABET_SIZE, LIBSAIS_FLAGS_BWT, LIBSAIS_FLAGS_GSA, LIBSAIS_FLAGS_NONE,
    LIBSAIS_LOCAL_BUFFER_SIZE, LIBSAIS_PER_THREAD_CACHE_SIZE, SAINT_BIT, SAINT_MAX, SAINT_MIN,
    SUFFIX_GROUP_BIT, SUFFIX_GROUP_MARKER, UNBWT_FASTBITS, Context, FastSint, FastUint, SaSint,
    SaUint, ThreadCache, ThreadState, UnbwtContext,
};
pub use partial_8u::{
    partial_gsa_scan_right_to_left_8u, partial_sorting_scan_left_to_right_8u,
    partial_sorting_scan_right_to_left_8u,
};
pub use partial_32s::{
    partial_sorting_scan_left_to_right_32s_1k, partial_sorting_scan_left_to_right_32s_4k,
    partial_sorting_scan_left_to_right_32s_6k, partial_sorting_scan_right_to_left_32s_1k,
    partial_sorting_scan_right_to_left_32s_4k, partial_sorting_scan_right_to_left_32s_6k,
};
pub use gather::{
    count_and_gather_compacted_lms_suffixes_32s_2k, count_and_gather_lms_suffixes_32s_2k,
    count_and_gather_lms_suffixes_32s_4k, count_and_gather_lms_suffixes_8u,
    count_compacted_lms_suffixes_32s_2k, count_lms_suffixes_32s_2k, count_lms_suffixes_32s_4k,
    gather_compacted_lms_suffixes_32s, gather_lms_suffixes_32s, gather_lms_suffixes_8u,
};
pub use buckets::{
    count_suffixes_32s, initialize_buckets_end_32s_1k, initialize_buckets_end_32s_2k,
    initialize_buckets_for_lms_suffixes_radix_sort_32s_2k,
    initialize_buckets_for_lms_suffixes_radix_sort_32s_6k,
    initialize_buckets_for_lms_suffixes_radix_sort_8u,
    initialize_buckets_for_partial_sorting_32s_6k, initialize_buckets_for_partial_sorting_8u,
    initialize_buckets_for_radix_and_partial_sorting_32s_4k, initialize_buckets_start_32s_1k,
    initialize_buckets_start_and_end_32s_2k, initialize_buckets_start_and_end_32s_4k,
    initialize_buckets_start_and_end_32s_6k, initialize_buckets_start_and_end_8u,
};
pub use radix::{
    compact_and_place_cached_suffixes, count_negative_marked_suffixes,
    count_zero_marked_suffixes, flip_suffix_markers_omp,
    partial_sorting_gather_lms_suffixes_32s_1k, partial_sorting_gather_lms_suffixes_32s_1k_omp,
    partial_sorting_gather_lms_suffixes_32s_4k, partial_sorting_gather_lms_suffixes_32s_4k_omp,
    partial_sorting_shift_buckets_32s_6k, partial_sorting_shift_markers_32s_4k,
    partial_sorting_shift_markers_32s_6k_omp, partial_sorting_shift_markers_8u_omp,
    place_cached_suffixes, radix_sort_lms_suffixes_32s_1k, radix_sort_lms_suffixes_32s_2k,
    radix_sort_lms_suffixes_32s_6k, radix_sort_lms_suffixes_8u, radix_sort_set_markers_32s_4k,
    radix_sort_set_markers_32s_4k_omp, radix_sort_set_markers_32s_6k,
    radix_sort_set_markers_32s_6k_omp,
};
pub use renumber::{
    clamp_lms_suffixes_length_32s, clamp_lms_suffixes_length_32s_omp,
    gather_marked_lms_suffixes, gather_marked_lms_suffixes_omp, mark_distinct_lms_suffixes_32s,
    mark_distinct_lms_suffixes_32s_omp, reconstruct_lms_suffixes, reconstruct_lms_suffixes_omp,
    renumber_and_gather_lms_suffixes_omp, renumber_and_mark_distinct_lms_suffixes_32s_1k_omp,
    renumber_and_mark_distinct_lms_suffixes_32s_4k_omp, renumber_distinct_lms_suffixes_32s_4k,
    renumber_distinct_lms_suffixes_32s_4k_omp, renumber_lms_suffixes_8u,
    renumber_lms_suffixes_8u_omp,
};
pub use place::{
    place_lms_suffixes_histogram_32s_2k, place_lms_suffixes_histogram_32s_4k,
    place_lms_suffixes_histogram_32s_6k, place_lms_suffixes_interval_32s_1k,
    place_lms_suffixes_interval_32s_2k, place_lms_suffixes_interval_32s_4k,
    place_lms_suffixes_interval_8u,
};
pub use gather_omp::{
    count_and_gather_compacted_lms_suffixes_32s_2k_fs_omp,
    count_and_gather_compacted_lms_suffixes_32s_2k_nofs_omp,
    count_and_gather_compacted_lms_suffixes_32s_2k_omp,
    count_and_gather_lms_suffixes_32s_2k_fs_omp, count_and_gather_lms_suffixes_32s_2k_nofs_omp,
    count_and_gather_lms_suffixes_32s_2k_omp, count_and_gather_lms_suffixes_32s_4k_fs_omp,
    count_and_gather_lms_suffixes_32s_4k_nofs_omp, count_and_gather_lms_suffixes_32s_4k_omp,
    count_and_gather_lms_suffixes_8u_omp, gather_lms_suffixes_8u_omp, get_bucket_stride,
};
pub use compact::{
    compact_lms_suffixes_32s_omp, compact_unique_and_nonunique_lms_suffixes_32s,
    compact_unique_and_nonunique_lms_suffixes_32s_omp, count_unique_suffixes,
    merge_compacted_lms_suffixes_32s_omp, merge_nonunique_lms_suffixes_32s,
    merge_nonunique_lms_suffixes_32s_omp, merge_unique_lms_suffixes_32s,
    merge_unique_lms_suffixes_32s_omp, reconstruct_compacted_lms_suffixes_32s_1k_omp,
    reconstruct_compacted_lms_suffixes_32s_2k_omp,
    renumber_unique_and_nonunique_lms_suffixes_32s,
    renumber_unique_and_nonunique_lms_suffixes_32s_omp,
};
pub use final_scan::{
    clear_lms_suffixes_omp, final_bwt_aux_scan_left_to_right_8u,
    final_bwt_aux_scan_right_to_left_8u, final_bwt_scan_left_to_right_8u,
    final_bwt_scan_right_to_left_8u, final_gsa_scan_right_to_left_8u,
    final_sorting_scan_left_to_right_32s, final_sorting_scan_left_to_right_8u,
    final_sorting_scan_right_to_left_32s, final_sorting_scan_right_to_left_8u,
};
pub use main_32s::{libsais_main_32s_entry, libsais_main_32s_recursion};
pub use main_8u::{libsais_main, libsais_main_8u, libsais_main_ctx, libsais_main_int, transform_8u};
pub use api::{
    bwt_copy_8u, bwt_copy_8u_omp, libsais, libsais_bwt, libsais_bwt_aux, libsais_bwt_aux_ctx,
    libsais_bwt_aux_omp, libsais_bwt_ctx, libsais_bwt_omp, libsais_ctx, libsais_gsa,
    libsais_gsa_ctx, libsais_gsa_omp, libsais_int, libsais_int_omp, libsais_omp,
};
pub use plcp::{
    compute_lcp, compute_lcp_omp, compute_phi, compute_phi_omp, compute_plcp, compute_plcp_gsa,
    compute_plcp_gsa_omp, compute_plcp_int, compute_plcp_int_omp, compute_plcp_omp, libsais_lcp,
    libsais_lcp_omp, libsais_plcp, libsais_plcp_gsa, libsais_plcp_gsa_omp, libsais_plcp_int,
    libsais_plcp_int_omp, libsais_plcp_omp,
};
pub use unbwt_tables::{
    unbwt_calculate_bi_psi, unbwt_calculate_fastbits, unbwt_compute_bigram_histogram_single,
    unbwt_compute_histogram, unbwt_init_single, unbwt_transpose_bucket2,
};
pub use unbwt_parallel::{unbwt_compute_bigram_histogram_parallel, unbwt_init_parallel};
pub use unbwt::{
    unbwt_core, unbwt_decode, unbwt_decode_1, unbwt_decode_2, unbwt_decode_3, unbwt_decode_4,
    unbwt_decode_5, unbwt_decode_6, unbwt_decode_7, unbwt_decode_8, unbwt_decode_omp,
    unbwt_main, unbwt_main_ctx,
};
pub use unbwt_api::{
    libsais_unbwt, libsais_unbwt_aux, libsais_unbwt_aux_ctx, libsais_unbwt_aux_omp,
    libsais_unbwt_ctx, libsais_unbwt_omp,
};
pub use counts::{
    accumulate_counts_s32, accumulate_counts_s32_2, accumulate_counts_s32_3,
    accumulate_counts_s32_4, accumulate_counts_s32_5, accumulate_counts_s32_6,
    accumulate_counts_s32_7, accumulate_counts_s32_8, accumulate_counts_s32_9,
};
pub use context::{
    align_up, alloc_thread_state, buckets_index2, buckets_index4, create_ctx, create_ctx_main,
    create_ctx_omp, free_ctx, normalize_omp_threads, thread_state_size, unbwt_create_ctx,
    unbwt_create_ctx_main, unbwt_create_ctx_omp, unbwt_free_ctx, unbwt_free_ctx_main,
};
pub use block_32s::{
    final_sorting_scan_left_to_right_32s_block_gather,
    final_sorting_scan_left_to_right_32s_block_omp,
    final_sorting_scan_left_to_right_32s_block_sort,
    final_sorting_scan_right_to_left_32s_block_gather,
    final_sorting_scan_right_to_left_32s_block_omp,
    final_sorting_scan_right_to_left_32s_block_sort,
    partial_sorting_scan_left_to_right_32s_1k_block_gather,
    partial_sorting_scan_left_to_right_32s_1k_block_omp,
    partial_sorting_scan_left_to_right_32s_1k_block_sort,
    partial_sorting_scan_left_to_right_32s_4k_block_gather,
    partial_sorting_scan_left_to_right_32s_4k_block_omp,
    partial_sorting_scan_left_to_right_32s_4k_block_sort,
    partial_sorting_scan_left_to_right_32s_6k_block_gather,
    partial_sorting_scan_left_to_right_32s_6k_block_omp,
    partial_sorting_scan_left_to_right_32s_6k_block_sort,
    partial_sorting_scan_right_to_left_32s_1k_block_gather,
    partial_sorting_scan_right_to_left_32s_1k_block_omp,
    partial_sorting_scan_right_to_left_32s_1k_block_sort,
    partial_sorting_scan_right_to_left_32s_4k_block_gather,
    partial_sorting_scan_right_to_left_32s_4k_block_omp,
    partial_sorting_scan_right_to_left_32s_4k_block_sort,
    partial_sorting_scan_right_to_left_32s_6k_block_gather,
    partial_sorting_scan_right_to_left_32s_6k_block_omp,
    partial_sorting_scan_right_to_left_32s_6k_block_sort,
};
pub use block_8u::{
    final_bwt_aux_scan_left_to_right_8u_block_omp,
    final_bwt_aux_scan_left_to_right_8u_block_place,
    final_bwt_aux_scan_right_to_left_8u_block_omp,
    final_bwt_aux_scan_right_to_left_8u_block_place,
    final_bwt_aux_scan_right_to_left_8u_block_prepare,
    final_bwt_scan_left_to_right_8u_block_omp, final_bwt_scan_left_to_right_8u_block_prepare,
    final_bwt_scan_right_to_left_8u_block_omp, final_bwt_scan_right_to_left_8u_block_prepare,
    final_gsa_scan_right_to_left_8u_block_omp, final_gsa_scan_right_to_left_8u_block_place,
    final_order_scan_left_to_right_8u_block_place,
    final_order_scan_right_to_left_8u_block_place,
    final_sorting_scan_left_to_right_8u_block_omp,
    final_sorting_scan_left_to_right_8u_block_prepare,
    final_sorting_scan_right_to_left_8u_block_omp,
    final_sorting_scan_right_to_left_8u_block_prepare,
    partial_gsa_scan_right_to_left_8u_block_omp, partial_gsa_scan_right_to_left_8u_block_place,
    partial_sorting_scan_left_to_right_8u_block_omp,
    partial_sorting_scan_left_to_right_8u_block_place,
    partial_sorting_scan_left_to_right_8u_block_prepare,
    partial_sorting_scan_right_to_left_8u_block_omp,
    partial_sorting_scan_right_to_left_8u_block_place,
    partial_sorting_scan_right_to_left_8u_block_prepare,
};
pub use orders::{
    induce_final_order_32s_1k, induce_final_order_32s_2k, induce_final_order_32s_4k, induce_final_order_32s_6k,
    induce_final_order_8u_omp, induce_partial_order_32s_1k_omp, induce_partial_order_32s_2k_omp,
    induce_partial_order_32s_4k_omp, induce_partial_order_32s_6k_omp, induce_partial_order_8u_omp,
    radix_sort_lms_suffixes_32s_2k_omp, radix_sort_lms_suffixes_32s_6k_omp, radix_sort_lms_suffixes_8u_omp,
};
pub use sweeps::{
    final_bwt_aux_scan_left_to_right_8u_omp, final_bwt_aux_scan_right_to_left_8u_omp,
    final_bwt_scan_left_to_right_8u_omp, final_bwt_scan_right_to_left_8u_omp,
    final_gsa_scan_right_to_left_8u_omp, final_sorting_scan_left_to_right_8u_omp,
    final_sorting_scan_right_to_left_8u_omp, partial_gsa_scan_right_to_left_8u_omp,
    partial_sorting_scan_left_to_right_8u_omp, partial_sorting_scan_right_to_left_8u_omp,
};
pub use sweeps_32s::{
    final_sorting_scan_left_to_right_32s_omp, final_sorting_scan_right_to_left_32s_omp,
    partial_sorting_scan_left_to_right_32s_1k_omp, partial_sorting_scan_left_to_right_32s_4k_omp,
    partial_sorting_scan_left_to_right_32s_6k_omp, partial_sorting_scan_right_to_left_32s_1k_omp,
    partial_sorting_scan_right_to_left_32s_4k_omp, partial_sorting_scan_right_to_left_32s_6k_omp,
};
