use hopper::error::ModelError;
use hopper::golden::{Golden, Manifest, ModelMeta, TensorDesc, WeightsLoader};
use hopper::stage::Activation;

fn desc(name: &str, shape: &[usize], dtype: &str) -> TensorDesc {
    TensorDesc {
        name: name.to_string(),
        shape: shape.to_vec(),
        dtype: dtype.to_string(),
        path: format!("{name}.bin"),
        n_elements: shape.iter().product(),
    }
}

fn singles(xs: &[f32]) -> Vec<u8> {
    xs.iter().flat_map(|x| x.to_le_bytes()).collect()
}

fn manifest(weights: Vec<TensorDesc>) -> Manifest {
    Manifest {
        model: ModelMeta {
            name: "tiny".to_string(),
            model_hash: String::new(),
            vocab_size: 3,
            d_model: 2,
            n_layer: 1,
            n_head: 1,
            head_dim: 2,
            d_ff: 4,
            max_seq: 5,
            eps: 1e-5f32.to_bits(),
        },
        weights,
        stages: vec![],
    }
}

#[test]
fn the_configuration_is_that_of_the_manifest() {
    let golden = Golden {
        dir: "somewhere".to_string(),
        manifest: manifest(vec![]),
    };
    let cfg = golden.config();
    assert_eq!(cfg.name, "tiny");
    assert_eq!((cfg.vocab_size, cfg.d_model, cfg.n_layer), (3, 2, 1));
    assert_eq!((cfg.n_head, cfg.d_ff, cfg.max_seq), (1, 4, 5));
    assert_eq!(f32::from_bits(cfg.eps), 1e-5);
}

#[test]
fn matrices_are_read_row_by_row() {
    let d = desc("m", &[2, 3], "f32");
    let m = Golden::array2(&d, &singles(&[1.0, 2.0, 3.0, 4.0, 5.0, 6.0])).unwrap();
    assert_eq!(m.cols, 3);
    assert_eq!(f32::from_bits(m.rows[1][0]), 4.0);
    assert_eq!(f32::from_bits(m.rows[1][2]), 6.0);
}

#[test]
fn a_tensor_must_be_what_the_manifest_says() {
    let d = desc("m", &[2, 2], "f64");
    match Golden::array2(&d, &[0; 16]) {
        Err(ModelError::BadDtype { name, dtype }) => {
            assert_eq!((name.as_str(), dtype.as_str()), ("m", "f64"));
        }
        other => panic!("{other:?}"),
    }
    assert!(d.check_dtype("f64").is_ok());
    let d = desc("m", &[2, 2], "f32");
    match Golden::array1(&d, &[0; 15]) {
        Err(ModelError::TensorSize {
            name,
            expected,
            got,
        }) => assert_eq!((name.as_str(), expected, got), ("m", 16, 15)),
        other => panic!("{other:?}"),
    }
    // a type or a size that is wrong is found before the shape is looked at
    let d = desc("m", &[2], "i64");
    assert!(matches!(
        Golden::array2(&d, &[]),
        Err(ModelError::BadDtype { .. })
    ));
    let d = desc("m", &[2], "f32");
    assert!(matches!(
        Golden::array2(&d, &[]),
        Err(ModelError::TensorSize { .. })
    ));
    let mut d = desc("m", &[0, 0], "f32");
    d.shape = vec![0, usize::MAX];
    assert!(matches!(Golden::array2(&d, &[]), Err(ModelError::Shape)));
    let mut d = desc("m", &[2, 2], "f32");
    d.shape = vec![2, 3];
    assert!(matches!(
        Golden::array2(&d, &[0; 16]),
        Err(ModelError::Shape)
    ));
}

#[test]
fn ids_are_long_integers() {
    let d = desc("ids", &[3], "i64");
    let bytes: Vec<u8> = [5i64, 300, -1]
        .iter()
        .flat_map(|x| x.to_le_bytes())
        .collect();
    assert_eq!(Golden::ids(&d, &bytes).unwrap(), vec![5, 300, usize::MAX]);
    match Golden::activation(&d, &bytes).unwrap() {
        Activation::Ids(ids) => assert_eq!(ids.len(), 3),
        other => panic!("{other:?}"),
    }
    let d = desc("h", &[1, 2], "f32");
    match Golden::activation(&d, &singles(&[0.5, 1.5])).unwrap() {
        Activation::Hidden(h) => assert_eq!(h.rows, vec![vec![0.5f32.to_bits(), 1.5f32.to_bits()]]),
        other => panic!("{other:?}"),
    }
    assert!(matches!(
        Golden::ids(&d, &bytes),
        Err(ModelError::BadDtype { .. })
    ));
}

fn all_tensors() -> Vec<TensorDesc> {
    vec![
        desc("layer_00.w2", &[4, 2], "f32"),
        desc("layer_00.wqkv", &[2, 6], "f32"),
        desc("layer_00.wo", &[2, 2], "f32"),
        desc("layer_00.g1", &[2], "f32"),
        desc("layer_00.g2", &[2], "f32"),
        desc("layer_00.w1", &[2, 4], "f32"),
        desc("tok_emb", &[3, 2], "f32"),
        desc("pos_emb", &[5, 2], "f32"),
        desc("final_g", &[2], "f32"),
        desc("layer_00.g1", &[2], "f32"),
    ]
}

#[test]
fn weights_are_loaded_in_order() {
    let golden = Golden {
        dir: String::new(),
        manifest: manifest(all_tensors()),
    };
    let m = &golden.manifest;
    let mut loader = golden.weights();
    let mut order = vec![];
    while let Some(at) = loader.next().unwrap() {
        let d = &m.weights[at];
        assert_eq!(loader.next_is_gain(), d.shape.len() == 1);
        let first = order.len() as f32 * 100.0;
        let values: Vec<f32> = (0..d.n_elements).map(|i| first + i as f32).collect();
        loader.feed(at, &singles(&values)).unwrap();
        order.push(at);
    }
    // the last of two tensors of one name counts
    assert_eq!(order, vec![1, 2, 9, 4, 5, 0, 6, 7, 8]);
    let w = loader.finish();
    let value = |x: u32| f32::from_bits(x);
    assert_eq!(w.layers.len(), 1);
    assert_eq!(value(w.layers[0].wqkv.rows[1][5]), 11.0);
    assert_eq!(value(w.layers[0].wo.rows[0][1]), 101.0);
    assert_eq!(value(w.layers[0].g1[1]), 201.0);
    assert_eq!(value(w.layers[0].g2[0]), 300.0);
    assert_eq!(value(w.layers[0].w1.rows[1][3]), 407.0);
    assert_eq!(value(w.layers[0].w2.rows[3][1]), 507.0);
    assert_eq!(value(w.tok_emb.rows[2][1]), 605.0);
    assert_eq!(value(w.pos_emb.rows[4][0]), 708.0);
    assert_eq!(value(w.final_g[1]), 801.0);
}

#[test]
fn a_missing_tensor_is_named() {
    let mut tensors = all_tensors();
    tensors.remove(2);
    let m = manifest(tensors);
    let mut loader = WeightsLoader::new(&m);
    let at = loader.next().unwrap().unwrap();
    assert!(matches!(
        loader.feed(at, &[0; 3]),
        Err(ModelError::TensorSize { .. })
    ));
    loader.feed(at, &singles(&[0.0; 12])).unwrap();
    match loader.next() {
        Err(ModelError::MissingTensor(name)) => assert_eq!(name, "layer_00.wo"),
        other => panic!("{other:?}"),
    }
}
