use talon_core::error::TalonError;
use talon_core::vec_ext::{
    parse_dimensions_from_create_sql, parse_schema_from_create_sql, plan_vec_chunks,
    VecChunksPlan, VecChunksSchema, VecEmbeddingStorage,
};

#[test]
fn parse_dimensions_handles_various_sql_shapes() {
    let sql = "CREATE VIRTUAL TABLE vec_chunks USING vec0(chunk_id INTEGER PRIMARY KEY, embedding float[768] distance_metric=cosine)";
    assert_eq!(parse_dimensions_from_create_sql(sql), Some(768));
    let lowered = sql.to_lowercase();
    assert_eq!(parse_dimensions_from_create_sql(&lowered), Some(768));
    let weird_spaces = "embedding   int8[ 1024 ] distance_metric=cosine";
    assert_eq!(parse_dimensions_from_create_sql(weird_spaces), Some(1024));
    assert_eq!(parse_dimensions_from_create_sql("nothing here"), None);
    assert_eq!(parse_dimensions_from_create_sql("embedding float[]"), None);
}

#[test]
fn parse_schema_detects_storage_type() {
    assert_eq!(
        parse_schema_from_create_sql("embedding float[384] distance_metric=cosine"),
        Some(VecChunksSchema {
            dimensions: 384,
            storage: VecEmbeddingStorage::Float,
        })
    );
    assert_eq!(
        parse_schema_from_create_sql("embedding int8[384] distance_metric=cosine"),
        Some(VecChunksSchema {
            dimensions: 384,
            storage: VecEmbeddingStorage::Int8,
        })
    );
}

#[test]
fn schema_parsing_is_ascii_case_insensitive_and_strict_about_numbers() {
    assert_eq!(parse_dimensions_from_create_sql("EMBEDDING INT8[+12]"), Some(12));
    assert_eq!(parse_dimensions_from_create_sql("embedding bit[12]"), None);
    assert_eq!(parse_dimensions_from_create_sql("embedding float[-3]"), None);
    assert_eq!(parse_dimensions_from_create_sql("embedding float[4294967296]"), None);
    assert_eq!(parse_dimensions_from_create_sql("embedding float[4294967295]"), Some(4294967295));
    assert_eq!(parse_dimensions_from_create_sql("embedding float]3["), None);
}

#[test]
fn plan_keeps_a_matching_table_and_rebuilds_others() {
    let int8 = VecChunksSchema { dimensions: 768, storage: VecEmbeddingStorage::Int8 };
    assert_eq!(plan_vec_chunks(Some(int8), 768).unwrap(), VecChunksPlan::Keep);
    let sql = "CREATE VIRTUAL TABLE vec_chunks USING vec0(\n            chunk_id INTEGER PRIMARY KEY,\n            embedding int8[384] distance_metric=cosine\n         )";
    match plan_vec_chunks(Some(int8), 384).unwrap() {
        VecChunksPlan::Create { reset, sql: s } => {
            assert!(reset);
            assert_eq!(s, sql);
        }
        VecChunksPlan::Keep => panic!("expected a rebuild"),
    }
    let float = VecChunksSchema { dimensions: 384, storage: VecEmbeddingStorage::Float };
    assert!(matches!(plan_vec_chunks(Some(float), 384).unwrap(), VecChunksPlan::Create { reset: true, .. }));
    assert!(matches!(plan_vec_chunks(None, 384).unwrap(), VecChunksPlan::Create { reset: false, .. }));
    assert_eq!(parse_dimensions_from_create_sql(sql), Some(384));
}

#[test]
fn plan_rejects_zero_dimensions() {
    match plan_vec_chunks(None, 0) {
        Err(TalonError::InvalidInput { field, message }) => {
            assert_eq!(field, "dimensions");
            assert_eq!(message, "vec_chunks dimensions must be a positive integer");
        }
        other => panic!("unexpected {other:?}"),
    }
}

#[test]
fn created_table_reads_back_as_kept() {
    for dimensions in [1_u32, 9, 10, 768, 4_294_967_295] {
        let Ok(VecChunksPlan::Create { reset, sql }) = plan_vec_chunks(None, dimensions) else {
            panic!("a positive dimension creates the table");
        };
        assert!(!reset);
        let schema = parse_schema_from_create_sql(&sql).unwrap();
        assert_eq!(schema.dimensions, dimensions);
        assert_eq!(schema.storage, VecEmbeddingStorage::Int8);
        assert!(matches!(plan_vec_chunks(Some(schema), dimensions), Ok(VecChunksPlan::Keep)));
    }
}
